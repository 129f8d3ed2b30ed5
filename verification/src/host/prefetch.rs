//! Background prefetch: ship file contents before they are asked for.
//!
//! The walker collects the regular files below the share root, orders them
//! smallest first (source code before build artifacts), and emits one
//! [`Push::Prefill`] per chunk. Files above a size are skipped, and a total
//! budget bounds the whole run.

use bytes::Bytes;
use vstd::prelude::*;

use crate::host::dispatch::{generation, Generations};
use crate::host::inode_table::{ino_of, InodeTable};
use crate::host::port::{attr_outcome, children_outcome, data_outcome, FsOp, FsOutcome, HostFs};
use crate::host::mem::{Clock, MemFs};
use crate::host::tree;
use crate::host::{child_views, ChildView, DirChild};
use crate::path::{join_path, parse_path, Comp, HostPath};
use crate::payload::{bytes_contents, bytes_slice, window};
use crate::protocol::{push_views, FileKind, Ino, Push, PushView};

verus! {

/// How a prefetch run is bounded.
#[derive(Debug, Clone, Copy, PartialEq, Eq, Structural)]
pub struct PrefetchConfig {
    /// Files larger than this are skipped.
    pub max_file_bytes: u64,
    /// Stop once this many bytes were shipped.
    pub max_total_bytes: u64,
    /// Chunk size; the receiver drops chunks of another size.
    pub chunk_size: u32,
}

impl Default for PrefetchConfig {
    fn default() -> (r: Self)
        ensures
            r.max_file_bytes == 256 * 1024,
            r.max_total_bytes == 80 * 1024 * 1024,
            r.chunk_size == 16 * 1024,
    {
        PrefetchConfig {
            max_file_bytes: 256 * 1024,
            max_total_bytes: 80 * 1024 * 1024,
            chunk_size: 16 * 1024,
        }
    }
}

/// A file to ship.
#[derive(Debug)]
pub struct WorkItem {
    pub path: HostPath,
    pub size: u64,
}

pub struct ItemView {
    pub path: Seq<Comp>,
    pub size: u64,
}

impl View for WorkItem {
    type V = ItemView;

    open spec fn view(&self) -> ItemView {
        ItemView { path: self.path@, size: self.size }
    }
}

pub open spec fn item_views(v: Seq<WorkItem>) -> Seq<ItemView> {
    Seq::new(v.len(), |i: int| v[i]@)
}

pub open spec fn path_views(v: Seq<HostPath>) -> Seq<Seq<Comp>> {
    Seq::new(v.len(), |i: int| v[i]@)
}

/// The directories among the children of `dir`, in order.
pub open spec fn dirs_in(dir: Seq<Comp>, children: Seq<ChildView>) -> Seq<Seq<Comp>>
    decreases children.len(),
{
    if children.len() == 0 {
        Seq::empty()
    } else {
        let before = dirs_in(dir, children.drop_last());
        let c = children.last();
        if c.kind == FileKind::Directory {
            before.push(join_path(dir, parse_path(c.name)))
        } else {
            before
        }
    }
}

/// The regular files among the children of `dir` whose attributes could be had
/// and whose size is at most `max`, in order. `stats` holds an outcome per
/// child; those of other children do not matter.
pub open spec fn files_in(
    dir: Seq<Comp>,
    children: Seq<ChildView>,
    stats: Seq<FsOutcome>,
    max: u64,
) -> Seq<ItemView>
    decreases children.len(),
{
    if children.len() == 0 {
        Seq::empty()
    } else {
        let before = files_in(dir, children.drop_last(), stats, max);
        let c = children.last();
        match stats[children.len() - 1] {
            FsOutcome::Attr(a) => if c.kind == FileKind::Regular && a.size <= max {
                before.push(ItemView { path: join_path(dir, parse_path(c.name)), size: a.size })
            } else {
                before
            },
            _ => before,
        }
    }
}

/// Whether `stats` holds an outcome of asking for the attributes of every
/// regular child.
pub open spec fn file_stats<F: HostFs>(
    fs: F,
    dir: Seq<Comp>,
    children: Seq<ChildView>,
    stats: Seq<FsOutcome>,
) -> bool {
    &&& stats.len() == children.len()
    &&& forall|i: int|
        #![trigger stats[i]]
        0 <= i < children.len() && children[i].kind == FileKind::Regular ==> F::may(
            fs,
            FsOp::Stat(join_path(dir, parse_path(children[i].name))),
            fs,
            stats[i],
        )
}

/// Whether `o` is an outcome of listing `dir`, and `stats` are outcomes of
/// asking for the attributes of the regular children.
pub open spec fn listed<F: HostFs>(
    fs: F,
    dir: Seq<Comp>,
    o: FsOutcome,
    stats: Seq<FsOutcome>,
) -> bool {
    F::may(fs, FsOp::ListDir(dir), fs, o) && (o matches FsOutcome::Children(c) ==> file_stats(
        fs,
        dir,
        c,
        stats,
    ))
}

/// Whether `out` is what a walk over the directories on `stack` finds, last
/// directory first, with at most `limit` directories visited. A directory that
/// cannot be listed is passed over.
pub open spec fn finds<F: HostFs>(
    fs: F,
    stack: Seq<Seq<Comp>>,
    limit: nat,
    max: u64,
    out: Seq<ItemView>,
) -> bool
    decreases limit,
{
    if stack.len() == 0 || limit == 0 {
        out.len() == 0
    } else {
        let dir = stack.last();
        let rest = stack.drop_last();
        let left = (limit - 1) as nat;
        exists|o: FsOutcome, stats: Seq<FsOutcome>| #[trigger]
            listed(fs, dir, o, stats) && match o {
                FsOutcome::Children(c) => {
                    let files = files_in(dir, c, stats, max);
                    &&& files.len() <= out.len()
                    &&& out.take(files.len() as int) == files
                    &&& finds(
                        fs,
                        rest + dirs_in(dir, c),
                        left,
                        max,
                        out.skip(files.len() as int),
                    )
                },
                _ => finds(fs, rest, left, max, out),
            }
    }
}

proof fn lemma_files_prefix(
    dir: Seq<Comp>,
    children: Seq<ChildView>,
    a: Seq<FsOutcome>,
    b: Seq<FsOutcome>,
    max: u64,
)
    requires
        children.len() <= a.len(),
        children.len() <= b.len(),
        forall|i: int| 0 <= i < children.len() ==> a[i] == b[i],
    ensures
        files_in(dir, children, a, max) == files_in(dir, children, b, max),
    decreases children.len(),
{
    if children.len() > 0 {
        lemma_files_prefix(dir, children.drop_last(), a, b, max);
    }
}

proof fn lemma_finds_step<F: HostFs>(
    fs: F,
    stack: Seq<Seq<Comp>>,
    limit: nat,
    max: u64,
    c: Seq<ChildView>,
    stats: Seq<FsOutcome>,
    tail: Seq<ItemView>,
)
    requires
        stack.len() > 0,
        limit > 0,
        F::may(fs, FsOp::ListDir(stack.last()), fs, FsOutcome::Children(c)),
        file_stats(fs, stack.last(), c, stats),
        finds(
            fs,
            stack.drop_last() + dirs_in(stack.last(), c),
            (limit - 1) as nat,
            max,
            tail,
        ),
    ensures
        finds(fs, stack, limit, max, files_in(stack.last(), c, stats, max) + tail),
{
    let files = files_in(stack.last(), c, stats, max);
    let whole = files + tail;
    assert(whole.take(files.len() as int) =~= files);
    assert(whole.skip(files.len() as int) =~= tail);
    assert(listed(fs, stack.last(), FsOutcome::Children(c), stats));
}

/// Sort the children of `dir` into files to ship and directories to visit.
fn visit<F: HostFs>(
    fs: &F,
    dir: &HostPath,
    children: &Vec<DirChild>,
    max_file_bytes: u64,
    stack: &mut Vec<HostPath>,
    out: &mut Vec<WorkItem>,
) -> (stats: Ghost<Seq<FsOutcome>>)
    requires
        fs.sound(),
    ensures
        file_stats(*fs, dir@, child_views(children@), stats@),
        item_views(final(out)@) == item_views(old(out)@) + files_in(
            dir@,
            child_views(children@),
            stats@,
            max_file_bytes,
        ),
        path_views(final(stack)@) == path_views(old(stack)@) + dirs_in(
            dir@,
            child_views(children@),
        ),
{
    let ghost c = child_views(children@);
    let ghost out0 = item_views(out@);
    let ghost stack0 = path_views(stack@);
    let ghost mut stats: Seq<FsOutcome> = Seq::empty();
    let mut i: usize = 0;
    proof {
        assert(c.take(0) =~= Seq::empty());
        assert(out0 + files_in(dir@, c.take(0), stats, max_file_bytes) =~= out0);
        assert(stack0 + dirs_in(dir@, c.take(0)) =~= stack0);
    }
    while i < children.len()
        invariant
            i <= children@.len(),
            c == child_views(children@),
            fs.sound(),
            file_stats(*fs, dir@, c.take(i as int), stats),
            item_views(out@) == out0 + files_in(dir@, c.take(i as int), stats, max_file_bytes),
            path_views(stack@) == stack0 + dirs_in(dir@, c.take(i as int)),
        decreases children@.len() - i,
    {
        let child: &DirChild = &children[i];
        let path: HostPath = dir.join(&child.name);
        let ghost earlier = stats;
        let ghost now = c.take(i + 1);
        let ghost out1 = item_views(out@);
        let ghost stack1 = path_views(stack@);
        proof {
            assert(now.drop_last() =~= c.take(i as int));
            assert(now.last() == child@);
        }
        match child.kind {
            FileKind::Regular => {
                let r = fs.stat(&path);
                proof {
                    stats = stats.push(attr_outcome(r));
                }
                if let Ok(attr) = r {
                    if attr.size <= max_file_bytes {
                        let ghost shown = ItemView { path: path@, size: attr.size };
                        out.push(WorkItem { path, size: attr.size });
                        assert(item_views(out@) =~= out1.push(shown));
                    }
                }
            },
            FileKind::Directory => {
                proof {
                    stats = stats.push(FsOutcome::Done);
                }
                let ghost shown = path@;
                stack.push(path);
                assert(path_views(stack@) =~= stack1.push(shown));
            },
            FileKind::Symlink => {
                proof {
                    stats = stats.push(FsOutcome::Done);
                }
            },
        }
        proof {
            lemma_files_prefix(dir@, c.take(i as int), earlier, stats, max_file_bytes);
            assert forall|j: int|
                #![trigger stats[j]]
                0 <= j < now.len() && now[j].kind == FileKind::Regular implies F::may(
                *fs,
                FsOp::Stat(join_path(dir@, parse_path(now[j].name))),
                *fs,
                stats[j],
            ) by {
                if j < i {
                    assert(stats[j] == earlier[j]);
                    assert(now[j] == c.take(i as int)[j]);
                }
            }
            assert(item_views(out@) =~= out0 + files_in(dir@, now, stats, max_file_bytes));
            assert(path_views(stack@) =~= stack0 + dirs_in(dir@, now));
        }
        i += 1;
    }
    assert(c.take(c.len() as int) =~= c);
    Ghost(stats)
}

/// The regular files at or below `root_rel` of at most `max_file_bytes` bytes.
/// The walk visits as many directories as can be counted.
pub fn collect<F: HostFs>(fs: &F, root_rel: &HostPath, max_file_bytes: u64) -> (out: Vec<WorkItem>)
    requires
        fs.sound(),
    ensures
        finds(*fs, seq![root_rel@], u64::MAX as nat, max_file_bytes, item_views(out@)),
{
    let mut stack: Vec<HostPath> = Vec::new();
    stack.push(root_rel.clone());
    let mut out: Vec<WorkItem> = Vec::new();
    let mut left: u64 = u64::MAX;
    let ghost start = seq![root_rel@];
    proof {
        assert(path_views(stack@) =~= start);
        assert(item_views(out@) =~= Seq::<ItemView>::empty());
        assert forall|t: Seq<ItemView>| #[trigger]
            finds(*fs, path_views(stack@), left as nat, max_file_bytes, t) implies finds(
            *fs,
            start,
            u64::MAX as nat,
            max_file_bytes,
            item_views(out@) + t,
        ) by {
            assert(item_views(out@) + t =~= t);
        }
    }
    while left > 0
        invariant
            fs.sound(),
            forall|t: Seq<ItemView>| #[trigger]
                finds(*fs, path_views(stack@), left as nat, max_file_bytes, t) ==> finds(
                    *fs,
                    start,
                    u64::MAX as nat,
                    max_file_bytes,
                    item_views(out@) + t,
                ),
        ensures
            stack@.len() == 0 || left == 0,
        decreases left,
    {
        let ghost stack0 = path_views(stack@);
        let ghost out0 = item_views(out@);
        let dir: HostPath = match stack.pop() {
            Some(dir) => dir,
            None => {
                break;
            },
        };
        let ghost rest = path_views(stack@);
        proof {
            assert(stack0.last() == dir@);
            assert(stack0.drop_last() =~= rest);
        }
        left = left - 1;
        let children = fs.list_dir(&dir);
        assert(F::may(*fs, FsOp::ListDir(dir@), *fs, children_outcome(children)));
        match children {
            Err(_) => {
                proof {
                    let o = children_outcome(children);
                    assert(listed(*fs, stack0.last(), o, Seq::empty()));
                    assert forall|t: Seq<ItemView>| #[trigger]
                        finds(*fs, path_views(stack@), left as nat, max_file_bytes, t) implies finds(
                        *fs,
                        start,
                        u64::MAX as nat,
                        max_file_bytes,
                        item_views(out@) + t,
                    ) by {
                        assert(finds(*fs, stack0, (left + 1) as nat, max_file_bytes, t));
                    }
                }
            },
            Ok(children) => {
                let Ghost(stats) = visit(
                    fs,
                    &dir,
                    &children,
                    max_file_bytes,
                    &mut stack,
                    &mut out,
                );
                proof {
                    let c = child_views(children@);
                    let found = files_in(dir@, c, stats, max_file_bytes);
                    assert forall|t: Seq<ItemView>| #[trigger]
                        finds(*fs, path_views(stack@), left as nat, max_file_bytes, t) implies finds(
                        *fs,
                        start,
                        u64::MAX as nat,
                        max_file_bytes,
                        item_views(out@) + t,
                    ) by {
                        let whole = found + t;
                        assert(path_views(stack@) == rest + dirs_in(dir@, c));
                        lemma_finds_step(
                            *fs,
                            stack0,
                            (left + 1) as nat,
                            max_file_bytes,
                            c,
                            stats,
                            t,
                        );
                        assert(item_views(out@) + t =~= out0 + whole);
                    }
                }
            },
        }
    }
    proof {
        let none = Seq::<ItemView>::empty();
        if stack@.len() == 0 {
            assert(path_views(stack@).len() == 0);
        }
        assert(finds(*fs, path_views(stack@), left as nat, max_file_bytes, none));
        assert(item_views(out@) + none =~= item_views(out@));
    }
    out
}

/// The items of one size, in order.
pub open spec fn of_size(items: Seq<ItemView>, size: u64) -> Seq<ItemView>
    decreases items.len(),
{
    if items.len() == 0 {
        Seq::empty()
    } else {
        let before = of_size(items.drop_last(), size);
        if items.last().size == size {
            before.push(items.last())
        } else {
            before
        }
    }
}

/// Whether sizes go up.
pub open spec fn ascending(items: Seq<ItemView>) -> bool {
    forall|i: int, j: int|
        #![trigger items[i], items[j]]
        0 <= i <= j < items.len() ==> items[i].size <= items[j].size
}

/// Whether `out` is `items` ordered by size, where items of one size keep
/// their order.
pub open spec fn ordered_by_size(items: Seq<ItemView>, out: Seq<ItemView>) -> bool {
    &&& out.len() == items.len()
    &&& ascending(out)
    &&& forall|size: u64| #[trigger] of_size(out, size) == of_size(items, size)
}

proof fn lemma_of_size_concat(a: Seq<ItemView>, b: Seq<ItemView>, size: u64)
    ensures
        of_size(a + b, size) == of_size(a, size) + of_size(b, size),
    decreases b.len(),
{
    if b.len() == 0 {
        assert(a + b =~= a);
        assert(of_size(a, size) + of_size(b, size) =~= of_size(a, size));
    } else {
        lemma_of_size_concat(a, b.drop_last(), size);
        assert((a + b).drop_last() =~= a + b.drop_last());
        let before = of_size(b.drop_last(), size);
        assert(of_size(a, size) + before.push(b.last()) =~= (of_size(a, size) + before).push(
            b.last(),
        ));
    }
}

proof fn lemma_of_size_none(a: Seq<ItemView>, size: u64)
    requires
        forall|i: int| 0 <= i < a.len() ==> (#[trigger] a[i]).size != size,
    ensures
        of_size(a, size) == Seq::<ItemView>::empty(),
    decreases a.len(),
{
    if a.len() > 0 {
        assert(a[a.len() - 1] == a.last());
        assert forall|i: int| 0 <= i < a.drop_last().len() implies (#[trigger] a.drop_last()[i]).size
            != size by {
            assert(a[i] == a.drop_last()[i]);
        }
        lemma_of_size_none(a.drop_last(), size);
    }
}

/// An item put before all that are not smaller keeps the order, where it came
/// before them.
proof fn lemma_insert_by_size(
    items: Seq<ItemView>,
    out: Seq<ItemView>,
    x: ItemView,
    pos: int,
)
    requires
        ordered_by_size(items, out),
        0 <= pos <= out.len(),
        forall|i: int| 0 <= i < pos ==> (#[trigger] out[i]).size < x.size,
        forall|i: int| pos <= i < out.len() ==> (#[trigger] out[i]).size >= x.size,
    ensures
        ordered_by_size(seq![x] + items, out.insert(pos, x)),
{
    let r = out.insert(pos, x);
    assert forall|i: int, j: int|
        #![trigger r[i], r[j]]
        0 <= i <= j < r.len() implies r[i].size <= r[j].size by {
        let i0 = if i > pos { i - 1 } else { i };
        let j0 = if j > pos { j - 1 } else { j };
        if i != pos {
            assert(r[i] == out[i0]);
        }
        if j != pos {
            assert(r[j] == out[j0]);
        }
    }
    let a = out.take(pos);
    let b = out.skip(pos);
    let one = seq![x];
    assert(r =~= a + one + b);
    assert(out =~= a + b);
    assert forall|size: u64| #[trigger] of_size(r, size) == of_size(one + items, size) by {
        assert(of_size(out, size) == of_size(items, size));
        lemma_of_size_concat(a + one, b, size);
        lemma_of_size_concat(a, one, size);
        lemma_of_size_concat(a, b, size);
        lemma_of_size_concat(one, items, size);
        reveal_with_fuel(of_size, 2);
        assert(one.drop_last() =~= Seq::empty());
        if size == x.size {
            assert forall|i: int| 0 <= i < a.len() implies (#[trigger] a[i]).size != size by {
                assert(a[i] == out[i]);
            }
            lemma_of_size_none(a, size);
            assert(of_size(one, size) =~= one);
            assert(Seq::<ItemView>::empty() + one + of_size(b, size) =~= one + of_size(b, size));
            assert(Seq::<ItemView>::empty() + of_size(b, size) =~= of_size(b, size));
        } else {
            assert(of_size(one, size) =~= Seq::empty());
            assert(of_size(a, size) + Seq::<ItemView>::empty() + of_size(b, size) =~= of_size(
                a,
                size,
            ) + of_size(b, size));
            assert(Seq::<ItemView>::empty() + of_size(items, size) =~= of_size(items, size));
        }
    }
}

/// Order the files smallest first; files of one size keep their order.
pub fn sort_by_size(items: Vec<WorkItem>) -> (out: Vec<WorkItem>)
    ensures
        ordered_by_size(item_views(items@), item_views(out@)),
{
    let ghost all = item_views(items@);
    let mut rest: Vec<WorkItem> = items;
    let mut out: Vec<WorkItem> = Vec::new();
    proof {
        assert(all.skip(all.len() as int) =~= Seq::empty());
        assert(item_views(out@) =~= Seq::empty());
    }
    while rest.len() > 0
        invariant
            rest@.len() <= all.len(),
            item_views(rest@) == all.take(rest@.len() as int),
            ordered_by_size(all.skip(rest@.len() as int), item_views(out@)),
        decreases rest@.len(),
    {
        let ghost before = item_views(out@);
        let ghost left = rest@;
        if let Some(item) = rest.pop() {
            let pos: usize = lower_bound(&out, item.size);
            let ghost x = item@;
            let ghost n = rest@.len() as int;
            proof {
                assert(item_views(left)[n] == x);
                assert(all[n] == x);
                lemma_insert_by_size(all.skip(n + 1), before, x, pos as int);
                assert(seq![x] + all.skip(n + 1) =~= all.skip(n));
                assert(item_views(rest@) =~= all.take(n));
            }
            out.insert(pos, item);
            assert(item_views(out@) =~= before.insert(pos as int, x));
        }
    }
    assert(all.skip(0) =~= all);
    out
}

/// The number of leading files that are smaller than `size`.
fn lower_bound(items: &Vec<WorkItem>, size: u64) -> (pos: usize)
    requires
        ascending(item_views(items@)),
    ensures
        pos <= items@.len(),
        forall|i: int| 0 <= i < pos ==> (#[trigger] item_views(items@)[i]).size < size,
        forall|i: int|
            pos <= i < items@.len() ==> (#[trigger] item_views(items@)[i]).size >= size,
{
    let mut lo: usize = 0;
    let mut hi: usize = items.len();
    while lo < hi
        invariant
            lo <= hi <= items@.len(),
            ascending(item_views(items@)),
            forall|i: int| 0 <= i < lo ==> (#[trigger] item_views(items@)[i]).size < size,
            forall|i: int|
                hi <= i < items@.len() ==> (#[trigger] item_views(items@)[i]).size >= size,
        decreases hi - lo,
    {
        let mid: usize = lo + (hi - lo) / 2;
        let ghost at = item_views(items@)[mid as int];
        if items[mid].size < size {
            lo = mid + 1;
        } else {
            hi = mid;
        }
    }
    lo
}

/// The chunk of a file.
pub open spec fn prefill(
    ino: Ino,
    chunk_idx: u64,
    chunk_size: u32,
    data: Seq<u8>,
    generation: u64,
) -> PushView {
    PushView::Prefill { ino, chunk_idx, chunk_size, data, generation }
}

/// The sum, or the largest number.
pub open spec fn saturated(a: int) -> u64 {
    if a > u64::MAX {
        u64::MAX
    } else {
        a as u64
    }
}

/// How many bytes are asked for at `offset`.
pub open spec fn chunk_len(chunk_size: u32, size: u64, offset: int) -> u32 {
    if chunk_size <= size - offset {
        chunk_size
    } else {
        (size - offset) as u32
    }
}

/// Whether `out` are the chunks of a file from `offset` on, with `shipped`
/// bytes sent before them and `after` in all. A read that fails or gives
/// nothing ends the file, and so does the end of the budget.
pub open spec fn ships<F: HostFs>(
    fs: F,
    item: ItemView,
    ino: Ino,
    generation: u64,
    config: PrefetchConfig,
    offset: int,
    idx: int,
    shipped: u64,
    out: Seq<PushView>,
    after: u64,
) -> bool
    decreases
            if offset < item.size {
                item.size - offset
            } else {
                0
            },
{
    if offset >= item.size {
        out.len() == 0 && after == shipped
    } else {
        let size = chunk_len(config.chunk_size, item.size, offset);
        exists|o: FsOutcome| #[trigger]
            F::may(fs, FsOp::Read { path: item.path, offset: offset as u64, size }, fs, o) && match o {
                FsOutcome::Data(d) => if d.len() == 0 {
                    out.len() == 0 && after == shipped
                } else {
                    let total = saturated(shipped + d.len());
                    &&& out.len() > 0
                    &&& out[0] == prefill(ino, idx as u64, config.chunk_size, d, generation)
                    &&& if total >= config.max_total_bytes {
                        out.len() == 1 && after == total
                    } else {
                        ships(
                            fs,
                            item,
                            ino,
                            generation,
                            config,
                            offset + d.len(),
                            idx + 1,
                            total,
                            out.drop_first(),
                            after,
                        )
                    }
                },
                _ => out.len() == 0 && after == shipped,
            }
    }
}

proof fn lemma_ships_step<F: HostFs>(
    fs: F,
    item: ItemView,
    ino: Ino,
    generation: u64,
    config: PrefetchConfig,
    offset: int,
    idx: int,
    shipped: u64,
    d: Seq<u8>,
    tail: Seq<PushView>,
    after: u64,
)
    requires
        offset < item.size,
        d.len() > 0,
        F::may(
            fs,
            FsOp::Read {
                path: item.path,
                offset: offset as u64,
                size: chunk_len(config.chunk_size, item.size, offset),
            },
            fs,
            FsOutcome::Data(d),
        ),
        saturated(shipped + d.len()) >= config.max_total_bytes ==> tail.len() == 0 && after
            == saturated(shipped + d.len()),
        saturated(shipped + d.len()) < config.max_total_bytes ==> ships(
            fs,
            item,
            ino,
            generation,
            config,
            offset + d.len(),
            idx + 1,
            saturated(shipped + d.len()),
            tail,
            after,
        ),
    ensures
        ships(
            fs,
            item,
            ino,
            generation,
            config,
            offset,
            idx,
            shipped,
            seq![prefill(ino, idx as u64, config.chunk_size, d, generation)] + tail,
            after,
        ),
{
    let head = prefill(ino, idx as u64, config.chunk_size, d, generation);
    let whole = seq![head] + tail;
    assert(whole.drop_first() =~= tail);
    assert(whole[0] == head);
}

/// The chunks of one file, all stamped with `generation`.
fn ship_file<F: HostFs>(
    fs: &F,
    item: &WorkItem,
    ino: Ino,
    generation: u64,
    config: &PrefetchConfig,
    shipped: u64,
) -> (r: (Vec<Push>, u64))
    requires
        fs.sound(),
    ensures
        ships(*fs, item@, ino, generation, *config, 0, 0, shipped, push_views(r.0@), r.1),
{
    let mut out: Vec<Push> = Vec::new();
    let mut total: u64 = shipped;
    let mut offset: u64 = 0;
    let mut idx: u64 = 0;
    let chunk: u64 = config.chunk_size as u64;
    let ghost x = item@;
    proof {
        assert forall|t: Seq<PushView>, z: u64| #[trigger]
            ships(*fs, x, ino, generation, *config, 0, 0, shipped, t, z) implies ships(
            *fs,
            x,
            ino,
            generation,
            *config,
            0,
            0,
            shipped,
            push_views(out@) + t,
            z,
        ) by {
            assert(push_views(out@) + t =~= t);
        }
    }
    while offset < item.size
        invariant
            fs.sound(),
            x == item@,
            chunk == config.chunk_size,
            idx <= offset,
            forall|t: Seq<PushView>, z: u64| #[trigger]
                ships(
                    *fs,
                    x,
                    ino,
                    generation,
                    *config,
                    offset as int,
                    idx as int,
                    total,
                    t,
                    z,
                ) ==> ships(
                    *fs,
                    x,
                    ino,
                    generation,
                    *config,
                    0,
                    0,
                    shipped,
                    push_views(out@) + t,
                    z,
                ),
        decreases item.size - offset,
    {
        let ghost sent = push_views(out@);
        let ghost none = Seq::<PushView>::empty();
        let to_read: u32 = if chunk <= item.size - offset {
            config.chunk_size
        } else {
            (item.size - offset) as u32
        };
        let r = fs.read(&item.path, offset, to_read);
        assert(F::may(
            *fs,
            FsOp::Read { path: x.path, offset, size: to_read },
            *fs,
            data_outcome(r),
        ));
        let data: Bytes = match r {
            Ok(b) => b,
            Err(_) => {
                proof {
                    assert(ships(
                        *fs,
                        x,
                        ino,
                        generation,
                        *config,
                        offset as int,
                        idx as int,
                        total,
                        none,
                        total,
                    ));
                    assert(sent + none =~= sent);
                }
                return (out, total);
            },
        };
        let len: u64 = bytes_slice(&data).len() as u64;
        if len == 0 {
            proof {
                assert(ships(
                    *fs,
                    x,
                    ino,
                    generation,
                    *config,
                    offset as int,
                    idx as int,
                    total,
                    none,
                    total,
                ));
                assert(sent + none =~= sent);
            }
            return (out, total);
        }
        let ghost d = bytes_contents(data);
        let ghost head = prefill(ino, idx, config.chunk_size, d, generation);
        out.push(
            Push::Prefill { ino, chunk_idx: idx, chunk_size: config.chunk_size, data, generation },
        );
        assert(push_views(out@) =~= sent.push(head));
        let sum: u64 = if total <= u64::MAX - len {
            total + len
        } else {
            u64::MAX
        };
        if sum >= config.max_total_bytes {
            proof {
                lemma_ships_step(
                    *fs,
                    x,
                    ino,
                    generation,
                    *config,
                    offset as int,
                    idx as int,
                    total,
                    d,
                    none,
                    sum,
                );
                assert(sent + (seq![head] + none) =~= push_views(out@));
            }
            return (out, sum);
        }
        proof {
            assert forall|t: Seq<PushView>, z: u64| #[trigger]
                ships(
                    *fs,
                    x,
                    ino,
                    generation,
                    *config,
                    offset + len,
                    idx + 1,
                    sum,
                    t,
                    z,
                ) implies ships(
                *fs,
                x,
                ino,
                generation,
                *config,
                0,
                0,
                shipped,
                push_views(out@) + t,
                z,
            ) by {
                lemma_ships_step(
                    *fs,
                    x,
                    ino,
                    generation,
                    *config,
                    offset as int,
                    idx as int,
                    total,
                    d,
                    t,
                    z,
                );
                assert(sent + (seq![head] + t) =~= push_views(out@) + t);
            }
        }
        total = sum;
        offset = offset + len;
        idx = idx + 1;
    }
    proof {
        let none = Seq::<PushView>::empty();
        assert(ships(
            *fs,
            x,
            ino,
            generation,
            *config,
            offset as int,
            idx as int,
            total,
            none,
            total,
        ));
        assert(push_views(out@) + none =~= push_views(out@));
    }
    (out, total)
}

/// What a run has shipped, and the files that it passed over as too large.
#[derive(Debug, Clone, Copy, PartialEq, Eq, Structural)]
pub struct ShipTally {
    pub files: u64,
    pub chunks: u64,
    pub bytes: u64,
    pub skipped: u64,
}

/// The tally after files were passed over.
pub open spec fn passed_over(t: ShipTally, files: int) -> ShipTally {
    ShipTally { skipped: saturated(t.skipped + files), ..t }
}

/// The tally after a file was shipped in a number of chunks, with `bytes`
/// shipped in all.
pub open spec fn file_shipped(t: ShipTally, chunks: int, bytes: u64) -> ShipTally {
    ShipTally {
        files: saturated(t.files + 1),
        chunks: saturated(t.chunks + chunks),
        bytes,
        ..t
    }
}

/// The sizes of files, added up.
pub open spec fn total_size(items: Seq<ItemView>) -> int
    decreases items.len(),
{
    if items.len() == 0 {
        0
    } else {
        total_size(items.drop_last()) + items.last().size
    }
}

/// A prefetch run: the files still to ship, and what was shipped so far.
pub struct Prefetch {
    items: Vec<WorkItem>,
    at: usize,
    shipped: u64,
    files: u64,
    chunks: u64,
    skipped: u64,
    config: PrefetchConfig,
}

impl Prefetch {
    /// The files of the run, smallest first.
    pub closed spec fn files(&self) -> Seq<ItemView> {
        item_views(self.items@)
    }

    /// The number of files that are done with.
    pub closed spec fn done(&self) -> int {
        self.at as int
    }

    /// The number of bytes shipped.
    pub closed spec fn sent(&self) -> u64 {
        self.shipped
    }

    /// What was shipped and passed over.
    pub closed spec fn counted(&self) -> ShipTally {
        ShipTally {
            files: self.files,
            chunks: self.chunks,
            bytes: self.shipped,
            skipped: self.skipped,
        }
    }

    pub closed spec fn bounds(&self) -> PrefetchConfig {
        self.config
    }

    pub closed spec fn wf(&self) -> bool {
        self.at <= self.items@.len()
    }

    /// Walk the share and order what was found.
    pub fn start<F: HostFs>(fs: &F, config: PrefetchConfig) -> (r: Self)
        requires
            fs.sound(),
        ensures
            r.wf(),
            r.done() == 0,
            r.sent() == 0,
            r.counted() == (ShipTally { files: 0, chunks: 0, bytes: 0, skipped: 0 }),
            r.bounds() == config,
            exists|found: Seq<ItemView>| #[trigger]
                finds(*fs, seq![Seq::<Comp>::empty()], u64::MAX as nat, config.max_file_bytes, found)
                    && ordered_by_size(found, r.files()),
    {
        let root: HostPath = HostPath::empty();
        let found: Vec<WorkItem> = collect(fs, &root, config.max_file_bytes);
        let ghost f = item_views(found@);
        let items: Vec<WorkItem> = sort_by_size(found);
        let r = Prefetch { items, at: 0, shipped: 0, files: 0, chunks: 0, skipped: 0, config };
        proof {
            assert(seq![root@] =~= seq![Seq::<Comp>::empty()]);
            assert(finds(
                *fs,
                seq![Seq::<Comp>::empty()],
                u64::MAX as nat,
                config.max_file_bytes,
                f,
            ));
        }
        r
    }

    /// What was shipped and passed over so far.
    pub fn tally(&self) -> (r: ShipTally)
        ensures
            r == self.counted(),
            r.bytes == self.sent(),
    {
        ShipTally {
            files: self.files,
            chunks: self.chunks,
            bytes: self.shipped,
            skipped: self.skipped,
        }
    }

    /// How many files the walk found.
    pub fn len(&self) -> (n: usize)
        ensures
            n == self.files().len(),
    {
        self.items.len()
    }

    /// How many bytes the files hold that the walk found.
    pub fn eligible_bytes(&self) -> (r: u64)
        ensures
            r == saturated(total_size(self.files())),
    {
        let ghost files = self.files();
        let mut sum: u64 = 0;
        let mut i: usize = 0;
        assert(files.take(0) =~= Seq::empty());
        while i < self.items.len()
            invariant
                i <= self.items@.len(),
                files == item_views(self.items@),
                sum == saturated(total_size(files.take(i as int))),
                total_size(files.take(i as int)) >= 0,
            decreases self.items@.len() - i,
        {
            proof {
                assert(files.take(i + 1).drop_last() =~= files.take(i as int));
                assert(files.take(i + 1).last() == self.items@[i as int]@);
            }
            sum = sum.saturating_add(self.items[i].size);
            i += 1;
        }
        assert(files.take(files.len() as int) =~= files);
        sum
    }

    /// The chunks of the next file. The path gets a number if it has none, and
    /// every chunk carries the generation of now. `None` once the files or the
    /// budget are used up.
    pub fn next_file<F: HostFs>(
        &mut self,
        fs: &F,
        inodes: &mut InodeTable,
        generations: &Generations,
    ) -> (r: Option<Vec<Push>>)
        requires
            old(self).wf(),
            fs.sound(),
            old(inodes).wf(),
            old(inodes).next() < Ino::MAX,
        ensures
            final(self).wf(),
            final(self).files() == old(self).files(),
            final(self).bounds() == old(self).bounds(),
            final(inodes).wf(),
            ({
                let files = old(self).files();
                let k = next_eligible(files, old(self).done(), old(self).bounds().max_file_bytes);
                let passed = k - old(self).done();
                if old(self).sent() >= old(self).bounds().max_total_bytes {
                    &&& r is None
                    &&& final(inodes)@ == old(inodes)@
                    &&& final(inodes).next() == old(inodes).next()
                    &&& *final(self) == *old(self)
                } else if k >= files.len() {
                    &&& r is None
                    &&& final(inodes)@ == old(inodes)@
                    &&& final(inodes).next() == old(inodes).next()
                    &&& final(self).sent() == old(self).sent()
                    &&& final(self).done() == k
                    &&& final(self).counted() == passed_over(old(self).counted(), passed)
                } else {
                    let known = ino_of(old(inodes)@, files[k].path);
                    let ino = if known is Some {
                        known->0
                    } else {
                        old(inodes).next()
                    };
                    &&& r is Some
                    &&& final(self).done() == k + 1
                    &&& final(self).counted() == file_shipped(
                        passed_over(old(self).counted(), passed),
                        r->0@.len() as int,
                        final(self).sent(),
                    )
                    &&& final(inodes)@ == (if known is Some {
                        old(inodes)@
                    } else {
                        old(inodes)@.insert(ino, files[k].path)
                    })
                    &&& final(inodes).next() == (if known is Some {
                        old(inodes).next() as int
                    } else {
                        ino + 1
                    })
                    &&& ships(
                        *fs,
                        files[k],
                        ino,
                        generation(generations@, ino),
                        old(self).bounds(),
                        0,
                        0,
                        old(self).sent(),
                        push_views(r->0@),
                        final(self).sent(),
                    )
                }
            }),
    {
        if self.shipped >= self.config.max_total_bytes {
            return None;
        }
        let ghost files = self.files();
        let start: usize = self.at;
        while self.at < self.items.len() && self.items[self.at].size > self.config.max_file_bytes
            invariant
                start <= self.at <= self.items@.len(),
                start == old(self).at,
                self.items@ == old(self).items@,
                self.config == old(self).config,
                self.shipped == old(self).shipped,
                self.files == old(self).files,
                self.chunks == old(self).chunks,
                self.skipped == old(self).skipped,
                files == item_views(self.items@),
                next_eligible(files, start as int, self.config.max_file_bytes) == next_eligible(
                    files,
                    self.at as int,
                    self.config.max_file_bytes,
                ),
            decreases self.items@.len() - self.at,
        {
            assert(files[self.at as int].size == self.items@[self.at as int].size);
            self.at = self.at + 1;
        }
        self.skipped = self.skipped.saturating_add((self.at - start) as u64);
        if self.at >= self.items.len() {
            return None;
        }
        let k: usize = self.at;
        assert(files[k as int] == self.items@[k as int]@);
        let ino: Ino = inodes.intern(&self.items[k].path);
        assert(inodes@[ino] == files[k as int].path);
        let stamp: u64 = generations.current(ino);
        let (out, total): (Vec<Push>, u64) = ship_file(
            fs,
            &self.items[k],
            ino,
            stamp,
            &self.config,
            self.shipped,
        );
        self.shipped = total;
        self.files = self.files.saturating_add(1);
        self.chunks = self.chunks.saturating_add(out.len() as u64);
        self.at = k + 1;
        Some(out)
    }
}

/// The first file from `k` on that is not too large.
pub open spec fn next_eligible(files: Seq<ItemView>, k: int, max: u64) -> int
    decreases files.len() - k,
{
    if k >= files.len() || files[k].size <= max {
        k
    } else {
        next_eligible(files, k + 1, max)
    }
}

proof fn lemma_chunks_hold_the_rest<C: Clock>(
    fs: MemFs<C>,
    item: ItemView,
    ino: Ino,
    generation: u64,
    config: PrefetchConfig,
    offset: int,
    idx: int,
    shipped: u64,
    out: Seq<PushView>,
    after: u64,
    content: Seq<u8>,
)
    requires
        tree::file_at(fs@, item.path) is Ok,
        content == fs@.inodes[tree::file_at(fs@, item.path)->Ok_0].content(),
        item.size == content.len(),
        config.chunk_size > 0,
        0 <= idx,
        offset == idx * config.chunk_size,
        shipped + content.len() - offset < config.max_total_bytes,
        ships(fs, item, ino, generation, config, offset, idx, shipped, out, after),
    ensures
        forall|i: int|
            0 <= i < out.len() ==> #[trigger] out[i] == prefill(
                ino,
                (idx + i) as u64,
                config.chunk_size,
                window(content, (idx + i) * config.chunk_size, config.chunk_size as int),
                generation,
            ),
        (idx + out.len()) * config.chunk_size >= content.len(),
    decreases
            if offset < item.size {
                item.size - offset
            } else {
                0
            },
{
    reveal_with_fuel(ships, 2);
    let c = config.chunk_size as int;
    if offset >= item.size {
        assert((idx + out.len()) * c >= content.len()) by (nonlinear_arith)
            requires
                idx * c >= content.len(),
                out.len() == 0,
        ;
    } else {
        let size = chunk_len(config.chunk_size, item.size, offset);
        let op = FsOp::Read { path: item.path, offset: offset as u64, size };
        let d = window(content, offset, size as int);
        assert forall|o: FsOutcome| MemFs::<C>::may(fs, op, fs, o) implies o == FsOutcome::Data(
            d,
        ) by {}
        assert(d.len() > 0);
        assert(d == window(content, offset, c)) by {
            assert(d =~= window(content, offset, c));
        }
        if d.len() == c {
            assert((idx + 1) * c == idx * c + c) by (nonlinear_arith);
            lemma_chunks_hold_the_rest(
                fs,
                item,
                ino,
                generation,
                config,
                offset + c,
                idx + 1,
                saturated(shipped + d.len()),
                out.drop_first(),
                after,
                content,
            );
        } else {
            assert(offset + d.len() >= item.size);
            assert(out.drop_first().len() == 0);
        }
        assert forall|i: int| 0 <= i < out.len() implies #[trigger] out[i] == prefill(
            ino,
            (idx + i) as u64,
            config.chunk_size,
            window(content, (idx + i) * config.chunk_size, config.chunk_size as int),
            generation,
        ) by {
            if i > 0 {
                assert(out[i] == out.drop_first()[i - 1]);
            }
        }
        if d.len() != c {
            assert((idx + out.len()) * c >= content.len()) by (nonlinear_arith)
                requires
                    out.len() == 1,
                    idx * c + c >= content.len(),
            ;
        }
    }
}

/// A file of the in-memory filesystem is shipped whole where the budget lasts:
/// chunk `i` holds the bytes from `i` chunk sizes on, and the chunks reach the
/// end of the file.
pub proof fn law_chunks_hold_the_file<C: Clock>(
    fs: MemFs<C>,
    item: ItemView,
    ino: Ino,
    generation: u64,
    config: PrefetchConfig,
    shipped: u64,
    out: Seq<PushView>,
    after: u64,
)
    requires
        tree::file_at(fs@, item.path) is Ok,
        item.size == fs@.inodes[tree::file_at(fs@, item.path)->Ok_0].content().len(),
        config.chunk_size > 0,
        shipped + item.size < config.max_total_bytes,
        ships(fs, item, ino, generation, config, 0, 0, shipped, out, after),
    ensures
        forall|i: int|
            0 <= i < out.len() ==> #[trigger] out[i] == prefill(
                ino,
                i as u64,
                config.chunk_size,
                window(
                    fs@.inodes[tree::file_at(fs@, item.path)->Ok_0].content(),
                    i * config.chunk_size,
                    config.chunk_size as int,
                ),
                generation,
            ),
        out.len() * config.chunk_size >= item.size,
{
    let content = fs@.inodes[tree::file_at(fs@, item.path)->Ok_0].content();
    lemma_chunks_hold_the_rest(
        fs,
        item,
        ino,
        generation,
        config,
        0,
        0,
        shipped,
        out,
        after,
        content,
    );
    assert(0 + out.len() == out.len());
}

/// How many bytes the chunks hold.
pub open spec fn bytes_in(out: Seq<PushView>) -> int
    decreases out.len(),
{
    if out.len() == 0 {
        0
    } else {
        (match out[0] {
            PushView::Prefill { data, .. } => data.len() as int,
            _ => 0,
        }) + bytes_in(out.drop_first())
    }
}

proof fn lemma_ships_counts<F: HostFs>(
    fs: F,
    item: ItemView,
    ino: Ino,
    generation: u64,
    config: PrefetchConfig,
    offset: int,
    idx: int,
    shipped: u64,
    out: Seq<PushView>,
    after: u64,
)
    requires
        ships(fs, item, ino, generation, config, offset, idx, shipped, out, after),
        0 <= offset,
        0 <= idx <= offset,
    ensures
        shipped + bytes_in(out) <= u64::MAX ==> after == shipped + bytes_in(out),
        shipped + bytes_in(out) > u64::MAX ==> after == u64::MAX,
        forall|i: int|
            0 <= i < out.len() ==> (#[trigger] out[i] matches PushView::Prefill {
                ino: n,
                chunk_idx,
                chunk_size,
                data,
                generation: g,
            } && n == ino && chunk_idx == idx + i && chunk_size == config.chunk_size && data.len()
                > 0 && g == generation),
        out.len() > 1 ==> shipped + bytes_in(out.drop_last()) < config.max_total_bytes,
        bytes_in(out) >= 0,
    decreases
            if offset < item.size {
                item.size - offset
            } else {
                0
            },
{
    if offset < item.size {
        let size = chunk_len(config.chunk_size, item.size, offset);
        let o = choose|o: FsOutcome| #[trigger]
            F::may(fs, FsOp::Read { path: item.path, offset: offset as u64, size }, fs, o) && match o {
                FsOutcome::Data(d) => if d.len() == 0 {
                    out.len() == 0 && after == shipped
                } else {
                    let total = saturated(shipped + d.len());
                    &&& out.len() > 0
                    &&& out[0] == prefill(ino, idx as u64, config.chunk_size, d, generation)
                    &&& if total >= config.max_total_bytes {
                        out.len() == 1 && after == total
                    } else {
                        ships(
                            fs,
                            item,
                            ino,
                            generation,
                            config,
                            offset + d.len(),
                            idx + 1,
                            total,
                            out.drop_first(),
                            after,
                        )
                    }
                },
                _ => out.len() == 0 && after == shipped,
            };
        if let FsOutcome::Data(d) = o {
            if d.len() > 0 {
                let total = saturated(shipped + d.len());
                let rest = out.drop_first();
                if total < config.max_total_bytes {
                    lemma_ships_counts(
                        fs,
                        item,
                        ino,
                        generation,
                        config,
                        offset + d.len(),
                        idx + 1,
                        total,
                        rest,
                        after,
                    );
                    if rest.len() > 0 {
                        let most = out.drop_last();
                        assert(most.drop_first() =~= rest.drop_last());
                        if rest.len() == 1 {
                            assert(bytes_in(rest.drop_last()) == 0);
                        }
                    }
                } else {
                    assert(bytes_in(rest) == 0);
                }
                assert forall|i: int| 0 <= i < out.len() implies (
                #[trigger] out[i] matches PushView::Prefill {
                    ino: n,
                    chunk_idx,
                    chunk_size,
                    data,
                    generation: g,
                } && n == ino && chunk_idx == idx + i && chunk_size == config.chunk_size
                    && data.len() > 0 && g == generation) by {
                    if i > 0 {
                        assert(out[i] == rest[i - 1]);
                    }
                }
            }
        }
    }
}

/// What ships of a file is counted to the byte, its chunks are numbered from 0
/// on without a gap and carry the number and the generation of the file, and
/// nothing ships once the budget is used up.
pub proof fn law_shipping_counts<F: HostFs>(
    fs: F,
    item: ItemView,
    ino: Ino,
    generation: u64,
    config: PrefetchConfig,
    shipped: u64,
    out: Seq<PushView>,
    after: u64,
)
    requires
        ships(fs, item, ino, generation, config, 0, 0, shipped, out, after),
    ensures
        shipped + bytes_in(out) <= u64::MAX ==> after == shipped + bytes_in(out),
        shipped + bytes_in(out) > u64::MAX ==> after == u64::MAX,
        forall|i: int|
            0 <= i < out.len() ==> (#[trigger] out[i] matches PushView::Prefill {
                ino: n,
                chunk_idx,
                chunk_size,
                data,
                generation: g,
            } && n == ino && chunk_idx == i && chunk_size == config.chunk_size && data.len() > 0
                && g == generation),
        out.len() > 1 ==> shipped + bytes_in(out.drop_last()) < config.max_total_bytes,
{
    lemma_ships_counts(fs, item, ino, generation, config, 0, 0, shipped, out, after);
}

/// Ordering by size loses no file and makes none up: the same files come out,
/// smallest first, and those of one size in the order in which they came.
pub proof fn law_smallest_first(items: Seq<ItemView>, out: Seq<ItemView>, i: int, j: int, size: u64)
    requires
        ordered_by_size(items, out),
        0 <= i <= j < out.len(),
    ensures
        out[i].size <= out[j].size,
        out.len() == items.len(),
        out.filter(|x: ItemView| x.size == size) == items.filter(|x: ItemView| x.size == size),
{
    assert(of_size(out, size) == of_size(items, size));
    lemma_of_size_filter(out, size);
    lemma_of_size_filter(items, size);
}

proof fn lemma_of_size_filter(items: Seq<ItemView>, size: u64)
    ensures
        of_size(items, size) == items.filter(|x: ItemView| x.size == size),
    decreases items.len(),
{
    reveal(Seq::filter);
    if items.len() > 0 {
        lemma_of_size_filter(items.drop_last(), size);
    } else {
        assert(of_size(items, size) =~= items.filter(|x: ItemView| x.size == size));
    }
}

/// The next file to ship is the first from here on that is not too large.
pub proof fn law_next_file(files: Seq<ItemView>, from: int, max: u64)
    requires
        0 <= from <= files.len(),
    ensures
        ({
            let k = next_eligible(files, from, max);
            &&& from <= k <= files.len()
            &&& k < files.len() ==> files[k].size <= max
            &&& forall|i: int| from <= i < k ==> (#[trigger] files[i]).size > max
        }),
    decreases files.len() - from,
{
    if from < files.len() && files[from].size > max {
        law_next_file(files, from + 1, max);
    }
}

/// What a run counts: each file that ships is one more, with its chunks, and
/// each that is passed over is one more of those; the files that a walk found
/// hold the sum of their sizes.
pub proof fn law_run_counts(
    t: ShipTally,
    chunks: int,
    bytes: u64,
    passed: int,
    files: Seq<ItemView>,
    more: ItemView,
)
    requires
        0 <= chunks,
        0 <= passed,
        t.files < u64::MAX,
        t.chunks + chunks <= u64::MAX,
        t.skipped + passed <= u64::MAX,
    ensures
        file_shipped(t, chunks, bytes).files == t.files + 1,
        file_shipped(t, chunks, bytes).chunks == t.chunks + chunks,
        file_shipped(t, chunks, bytes).bytes == bytes,
        file_shipped(t, chunks, bytes).skipped == t.skipped,
        passed_over(t, passed).skipped == t.skipped + passed,
        passed_over(t, passed).files == t.files,
        passed_over(t, passed).chunks == t.chunks,
        passed_over(t, passed).bytes == t.bytes,
        total_size(Seq::empty()) == 0,
        total_size(files.push(more)) == total_size(files) + more.size,
{
    assert(files.push(more).drop_last() =~= files);
}

} // verus!
