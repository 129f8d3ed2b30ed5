//! Host-side request dispatcher.
//!
//! Turns protocol requests into filesystem operations and their outcomes into
//! responses. The inode table lets clients name files by number while the
//! filesystem works on paths; open handles carry the flags they were opened
//! with; a generation counter per inode tells stale content from fresh.

use std::collections::BTreeMap;

use bytes::Bytes;
use vstd::prelude::*;

use crate::host::inode_table::{forgotten, ino_of, renamed, InodeTable};
use crate::host::mem::{Clock, MemFs};
use crate::host::prefetch::{
    file_shipped, finds, next_eligible, ordered_by_size, passed_over, ships, ItemView, Prefetch,
    PrefetchConfig, ShipTally,
};
use crate::host::port::{
    attr_outcome, children_outcome, data_outcome, size_outcome, tree_step, unit_outcome, FsOp,
    FsOutcome, HostFs,
};
use crate::host::tree;
use crate::host::watcher::{event_pushes, path_views, translate, EventKind};
use crate::host::{child_views, errno_of, path_failure, ChildView, DirChild, Failure, HostError};
use crate::path::{join_path, parse_path, Comp, HostPath};
use crate::payload::{bytes_contents, bytes_slice};
use crate::protocol::errno::{EBADF, EINVAL, EIO, ENOENT, ENOSYS};
use crate::protocol::{
    data_answer, entry_plus_views, entry_views, push_views, Answer, DirEntry, DirEntryPlus,
    EntryPlusView, EntryView, FileAttr, Frame, Ino, OpenFlags, Push, Request, RequestId, Response,
    StatFs, ROOT_INO,
};

verus! {

/// What is known of an open handle: its inode and the flags it was opened
/// with.
#[derive(Debug, Clone, Copy, PartialEq, Eq, Structural)]
pub struct HandleState {
    pub ino: Ino,
    pub flags: OpenFlags,
}

/// The open handles. Handle numbers count up from 1 and are not reused.
pub struct OpenHandles {
    next_handle: u64,
    open: BTreeMap<u64, HandleState>,
}

impl View for OpenHandles {
    type V = Map<u64, HandleState>;

    closed spec fn view(&self) -> Map<u64, HandleState> {
        self.open@
    }
}

impl OpenHandles {
    /// The handle that was given out last.
    pub closed spec fn last(&self) -> u64 {
        self.next_handle
    }

    pub fn new() -> (r: Self)
        ensures
            r@ == Map::<u64, HandleState>::empty(),
            r.last() == 0,
    {
        OpenHandles { next_handle: 0, open: BTreeMap::new() }
    }

    /// Give out the next handle.
    pub fn allocate(&mut self, ino: Ino, flags: OpenFlags) -> (h: u64)
        requires
            old(self).last() < u64::MAX,
        ensures
            h == old(self).last() + 1,
            final(self).last() == h,
            final(self)@ == old(self)@.insert(h, HandleState { ino, flags }),
    {
        self.next_handle = self.next_handle + 1;
        let h: u64 = self.next_handle;
        self.open.insert(h, HandleState { ino, flags });
        h
    }

    /// Forget a handle. Unknown handles are left alone.
    pub fn release(&mut self, handle: u64)
        ensures
            final(self)@ == old(self)@.remove(handle),
            final(self).last() == old(self).last(),
    {
        self.open.remove(&handle);
        assert(self@ =~= old(self)@.remove(handle));
    }

    /// What is known of a handle.
    pub fn get(&self, handle: u64) -> (r: Option<HandleState>)
        ensures
            r is Some <==> self@.dom().contains(handle),
            r matches Some(s) ==> s == self@[handle],
    {
        match self.open.get(&handle) {
            Some(s) => Some(*s),
            None => None,
        }
    }
}

/// The generation of an inode: a counter that starts at 0 and goes up with
/// every change of its content.
pub open spec fn generation(gens: Map<Ino, u64>, ino: Ino) -> u64 {
    if gens.dom().contains(ino) {
        gens[ino]
    } else {
        0
    }
}

/// The counters after a change of `ino`. A counter stops at its largest value.
pub open spec fn bumped(gens: Map<Ino, u64>, ino: Ino) -> Map<Ino, u64> {
    gens.insert(
        ino,
        if generation(gens, ino) < u64::MAX {
            (generation(gens, ino) + 1) as u64
        } else {
            u64::MAX
        },
    )
}

/// A generation counter per inode.
pub struct Generations {
    counts: BTreeMap<Ino, u64>,
}

impl View for Generations {
    type V = Map<Ino, u64>;

    closed spec fn view(&self) -> Map<Ino, u64> {
        self.counts@
    }
}

impl Generations {
    pub fn new() -> (r: Self)
        ensures
            r@ == Map::<Ino, u64>::empty(),
    {
        Generations { counts: BTreeMap::new() }
    }

    /// The generation of `ino`.
    pub fn current(&self, ino: Ino) -> (r: u64)
        ensures
            r == generation(self@, ino),
    {
        match self.counts.get(&ino) {
            Some(n) => *n,
            None => 0,
        }
    }

    /// Count a change of `ino`; gives the new generation.
    pub fn bump(&mut self, ino: Ino) -> (r: u64)
        ensures
            final(self)@ == bumped(old(self)@, ino),
            r == generation(final(self)@, ino),
    {
        let now: u64 = self.current(ino);
        let new: u64 = if now < u64::MAX {
            now + 1
        } else {
            now
        };
        self.counts.insert(ino, new);
        new
    }
}

/// Generations never go down, and only the changed inode's counter moves.
pub proof fn law_generation_monotonic(gens: Map<Ino, u64>, ino: Ino, other: Ino)
    ensures
        generation(bumped(gens, ino), other) >= generation(gens, other),
        generation(gens, ino) < u64::MAX ==> generation(bumped(gens, ino), ino) > generation(
            gens,
            ino,
        ),
        other != ino ==> generation(bumped(gens, ino), other) == generation(gens, other),
{
}

/// The state of a dispatcher.
pub struct Desk<F> {
    pub fs: F,
    pub table: Map<Ino, Seq<Comp>>,
    pub next: Ino,
    pub handles: Map<u64, HandleState>,
    pub last_handle: u64,
    pub gens: Map<Ino, u64>,
}

/// The desk after `p` was given a number, and the number.
pub open spec fn interned<F>(d: Desk<F>, p: Seq<Comp>) -> (Desk<F>, Ino) {
    match ino_of(d.table, p) {
        Some(k) => (d, k),
        None => (
            Desk { table: d.table.insert(d.next, p), next: (d.next + 1) as Ino, ..d },
            d.next,
        ),
    }
}

pub open spec fn failed<F>(d: Desk<F>, e: Failure) -> (Desk<F>, Answer) {
    (d, Answer::Error(errno_of(e)))
}

/// An attribute outcome for a path: the path gets a number, the attributes
/// carry it.
pub open spec fn entry_reply<F>(d: Desk<F>, p: Seq<Comp>, o: FsOutcome) -> (Desk<F>, Answer) {
    match o {
        FsOutcome::Attr(a) => {
            let (e, ino) = interned(d, p);
            (e, Answer::Entry(FileAttr { ino, ..a }))
        },
        FsOutcome::Failed(f) => failed(d, f),
        _ => (d, Answer::Error(EIO)),
    }
}

/// The attributes of an inode.
pub open spec fn attr_reply<F>(d: Desk<F>, ino: Ino, o: FsOutcome) -> (Desk<F>, Answer) {
    match o {
        FsOutcome::Attr(a) => (d, Answer::Attr(FileAttr { ino, ..a })),
        FsOutcome::Failed(f) => failed(d, f),
        _ => (d, Answer::Error(EIO)),
    }
}

/// The desk after the children got numbers, in order, and the entries.
pub open spec fn list_entries<F>(d: Desk<F>, p: Seq<Comp>, children: Seq<ChildView>) -> (
    Desk<F>,
    Seq<EntryView>,
)
    decreases children.len(),
{
    if children.len() == 0 {
        (d, Seq::empty())
    } else {
        let (e, before) = list_entries(d, p, children.drop_last());
        let c = children.last();
        let (f, ino) = interned(e, join_path(p, parse_path(c.name)));
        (f, before.push(EntryView { ino, name: c.name, kind: c.kind }))
    }
}

/// A directory page: the children from `offset` on.
pub open spec fn page_reply<F>(d: Desk<F>, p: Seq<Comp>, offset: u64, o: FsOutcome) -> (
    Desk<F>,
    Answer,
) {
    match o {
        FsOutcome::Children(c) => if offset >= c.len() {
            (d, Answer::DirPage(Seq::empty(), None))
        } else {
            let (e, entries) = list_entries(d, p, c.skip(offset as int));
            (e, Answer::DirPage(entries, None))
        },
        FsOutcome::Failed(f) => failed(d, f),
        _ => (d, Answer::Error(EIO)),
    }
}

/// The entries with attributes: a child whose attributes cannot be had is left
/// out.
pub open spec fn list_plus<F>(
    d: Desk<F>,
    p: Seq<Comp>,
    children: Seq<ChildView>,
    stats: Seq<FsOutcome>,
) -> (Desk<F>, Seq<EntryPlusView>)
    decreases children.len(),
{
    if children.len() == 0 {
        (d, Seq::empty())
    } else {
        let (e, before) = list_plus(d, p, children.drop_last(), stats);
        let c = children.last();
        match stats[children.len() - 1] {
            FsOutcome::Attr(a) => {
                let (f, ino) = interned(e, join_path(p, parse_path(c.name)));
                (
                    f,
                    before.push(
                        EntryPlusView { name: c.name, kind: c.kind, attr: FileAttr { ino, ..a } },
                    ),
                )
            },
            _ => (e, before),
        }
    }
}

/// Whether `stats` are outcomes of asking for the attributes of the children.
pub open spec fn child_stats<F: HostFs>(
    fs: F,
    p: Seq<Comp>,
    children: Seq<ChildView>,
    stats: Seq<FsOutcome>,
) -> bool {
    &&& stats.len() == children.len()
    &&& forall|i: int|
        #![trigger stats[i]]
        0 <= i < children.len() ==> F::may(
            fs,
            FsOp::Stat(join_path(p, parse_path(children[i].name))),
            fs,
            stats[i],
        )
}

/// File content with the generation of its inode.
pub open spec fn data_reply<F>(d: Desk<F>, ino: Ino, o: FsOutcome) -> (Desk<F>, Answer) {
    match o {
        FsOutcome::Data(b) => (d, data_answer(b, generation(d.gens, ino))),
        FsOutcome::Failed(f) => failed(d, f),
        _ => (d, Answer::Error(EIO)),
    }
}

/// A handle on `ino`.
pub open spec fn opened<F>(d: Desk<F>, ino: Ino, flags: OpenFlags) -> (Desk<F>, Answer) {
    let h = (d.last_handle + 1) as u64;
    (
        Desk { handles: d.handles.insert(h, HandleState { ino, flags }), last_handle: h, ..d },
        Answer::OpenOk(h),
    )
}

/// The desk after the content of `ino` changed.
pub open spec fn changed<F>(d: Desk<F>, ino: Ino) -> Desk<F> {
    Desk { gens: bumped(d.gens, ino), ..d }
}

/// A write that went through counts as a change.
pub open spec fn write_reply<F>(d: Desk<F>, ino: Ino, len: nat, o: FsOutcome) -> (
    Desk<F>,
    Answer,
) {
    match o {
        FsOutcome::Size(_) => (changed(d, ino), Answer::Written(len as u32)),
        FsOutcome::Failed(f) => failed(d, f),
        _ => (d, Answer::Error(EIO)),
    }
}

/// A change of `ino` that returns nothing.
pub open spec fn change_reply<F>(d: Desk<F>, ino: Ino, o: FsOutcome) -> (Desk<F>, Answer) {
    match o {
        FsOutcome::Done => (changed(d, ino), Answer::Done),
        FsOutcome::Failed(f) => failed(d, f),
        _ => (d, Answer::Error(EIO)),
    }
}

/// Success, with no effect on the desk.
pub open spec fn plain_reply<F>(d: Desk<F>, o: FsOutcome) -> (Desk<F>, Answer) {
    match o {
        FsOutcome::Done => (d, Answer::Done),
        FsOutcome::Failed(f) => failed(d, f),
        _ => (d, Answer::Error(EIO)),
    }
}

/// A removed path is forgotten.
pub open spec fn remove_reply<F>(d: Desk<F>, p: Seq<Comp>, o: FsOutcome) -> (Desk<F>, Answer) {
    match o {
        FsOutcome::Done => (Desk { table: forgotten(d.table, p), ..d }, Answer::Done),
        FsOutcome::Failed(f) => failed(d, f),
        _ => (d, Answer::Error(EIO)),
    }
}

/// A renamed path keeps its number.
pub open spec fn rename_reply<F>(d: Desk<F>, from: Seq<Comp>, to: Seq<Comp>, o: FsOutcome) -> (
    Desk<F>,
    Answer,
) {
    match o {
        FsOutcome::Done => (Desk { table: renamed(d.table, from, to), ..d }, Answer::Done),
        FsOutcome::Failed(f) => failed(d, f),
        _ => (d, Answer::Error(EIO)),
    }
}

/// Whether one operation, followed by `reply` on its outcome, leads from `d`
/// to `e` with the answer `a`.
pub open spec fn one_op<F: HostFs>(
    d: Desk<F>,
    op: FsOp,
    reply: spec_fn(Desk<F>, FsOutcome) -> (Desk<F>, Answer),
    e: Desk<F>,
    a: Answer,
) -> bool {
    exists|post: F, o: FsOutcome| #[trigger]
        F::may(d.fs, op, post, o) && (e, a) == reply(Desk { fs: post, ..d }, o)
}

/// The numbers reported for a filesystem whose real ones are not asked for.
pub open spec fn statfs_numbers() -> StatFs {
    StatFs { blocks: 0, bfree: 0, bavail: 0, files: 0, ffree: 0, bsize: 4096, namelen: 255 }
}

/// The path that `name` has below the directory `parent`.
pub open spec fn child_path<F>(d: Desk<F>, parent: Ino, name: Seq<char>) -> Seq<Comp> {
    join_path(d.table[parent], parse_path(name))
}

/// Whether a handle is known and was opened without what is asked of it.
pub open spec fn refuses<F>(d: Desk<F>, handle: u64, write: bool) -> bool {
    &&& handle != 0
    &&& d.handles.dom().contains(handle)
    &&& if write {
        !d.handles[handle].flags.write
    } else {
        !d.handles[handle].flags.read
    }
}

/// Whether a handle is known and appends.
pub open spec fn appends<F>(d: Desk<F>, handle: u64) -> bool {
    handle != 0 && d.handles.dom().contains(handle) && d.handles[handle].flags.append
}

/// Whether a request that is not a batch may lead from `d` to `e` with the
/// answer `a`.
pub open spec fn serves<F: HostFs>(d: Desk<F>, req: Request, e: Desk<F>, a: Answer) -> bool {
    let unknown = (e, a) == (d, Answer::Error(ENOENT));
    match req {
        Request::Lookup { parent, name } => if d.table.dom().contains(parent) {
            let p = child_path(d, parent, name@);
            one_op(d, FsOp::Stat(p), |x: Desk<F>, o: FsOutcome| entry_reply(x, p, o), e, a)
        } else {
            unknown
        },
        Request::GetAttr { ino } => if d.table.dom().contains(ino) {
            one_op(
                d,
                FsOp::Stat(d.table[ino]),
                |x: Desk<F>, o: FsOutcome| attr_reply(x, ino, o),
                e,
                a,
            )
        } else {
            unknown
        },
        Request::ReadDir { ino, offset } => if d.table.dom().contains(ino) {
            let p = d.table[ino];
            one_op(
                d,
                FsOp::ListDir(p),
                |x: Desk<F>, o: FsOutcome| page_reply(x, p, offset, o),
                e,
                a,
            )
        } else {
            unknown
        },
        Request::ReadDirPlus { ino, offset } => if d.table.dom().contains(ino) {
            serves_plus(d, d.table[ino], offset, e, a)
        } else {
            unknown
        },
        Request::Open { ino, flags } => if d.table.dom().contains(ino) {
            serves_open(d, ino, flags, e, a)
        } else {
            unknown
        },
        Request::Release { handle, .. } => (e, a) == (
            Desk { handles: d.handles.remove(handle), ..d },
            Answer::Done,
        ),
        Request::Read { ino, handle, offset, size } => if refuses(d, handle, false) {
            (e, a) == (d, Answer::Error(EBADF))
        } else if d.table.dom().contains(ino) {
            one_op(
                d,
                FsOp::Read { path: d.table[ino], offset, size },
                |x: Desk<F>, o: FsOutcome| data_reply(x, ino, o),
                e,
                a,
            )
        } else {
            unknown
        },
        Request::Write { ino, handle, offset, data } => if refuses(d, handle, true) {
            (e, a) == (d, Answer::Error(EBADF))
        } else if d.table.dom().contains(ino) {
            serves_write(d, ino, handle, offset, bytes_contents(data), e, a)
        } else {
            unknown
        },
        Request::Create { parent, name, mode, .. } => if d.table.dom().contains(parent) {
            let p = child_path(d, parent, name@);
            one_op(
                d,
                FsOp::Create { path: p, mode },
                |x: Desk<F>, o: FsOutcome| entry_reply(x, p, o),
                e,
                a,
            )
        } else {
            unknown
        },
        Request::Mkdir { parent, name, mode } => if d.table.dom().contains(parent) {
            let p = child_path(d, parent, name@);
            one_op(
                d,
                FsOp::Mkdir { path: p, mode },
                |x: Desk<F>, o: FsOutcome| entry_reply(x, p, o),
                e,
                a,
            )
        } else {
            unknown
        },
        Request::Unlink { parent, name } => if d.table.dom().contains(parent) {
            let p = child_path(d, parent, name@);
            one_op(d, FsOp::Unlink(p), |x: Desk<F>, o: FsOutcome| remove_reply(x, p, o), e, a)
        } else {
            unknown
        },
        Request::Rmdir { parent, name } => if d.table.dom().contains(parent) {
            let p = child_path(d, parent, name@);
            one_op(d, FsOp::Rmdir(p), |x: Desk<F>, o: FsOutcome| remove_reply(x, p, o), e, a)
        } else {
            unknown
        },
        Request::Rename { old_parent, old_name, new_parent, new_name } => if d.table.dom().contains(
            old_parent,
        ) && d.table.dom().contains(new_parent) {
            let from = child_path(d, old_parent, old_name@);
            let to = child_path(d, new_parent, new_name@);
            one_op(
                d,
                FsOp::Rename { from, to },
                |x: Desk<F>, o: FsOutcome| rename_reply(x, from, to, o),
                e,
                a,
            )
        } else {
            unknown
        },
        Request::Symlink { .. } => (e, a) == (d, Answer::Error(ENOSYS)),
        Request::ReadLink { .. } => (e, a) == (d, Answer::Error(ENOSYS)),
        Request::Truncate { ino, size } => if d.table.dom().contains(ino) {
            one_op(
                d,
                FsOp::Truncate { path: d.table[ino], size },
                |x: Desk<F>, o: FsOutcome| change_reply(x, ino, o),
                e,
                a,
            )
        } else {
            unknown
        },
        Request::Chmod { ino, mode } => if d.table.dom().contains(ino) {
            one_op(
                d,
                FsOp::Chmod { path: d.table[ino], mode },
                |x: Desk<F>, o: FsOutcome| change_reply(x, ino, o),
                e,
                a,
            )
        } else {
            unknown
        },
        Request::Fsync { ino, .. } => if d.table.dom().contains(ino) {
            one_op(
                d,
                FsOp::Fsync(d.table[ino]),
                |x: Desk<F>, o: FsOutcome| plain_reply(x, o),
                e,
                a,
            )
        } else {
            unknown
        },
        Request::StatFs { .. } => (e, a) == (d, Answer::StatFs(statfs_numbers())),
        Request::Batch(_) => (e, a) == (d, Answer::Error(EINVAL)),
    }
}

/// A directory listing, then the attributes of each child from `offset` on.
pub open spec fn serves_plus<F: HostFs>(
    d: Desk<F>,
    p: Seq<Comp>,
    offset: u64,
    e: Desk<F>,
    a: Answer,
) -> bool {
    exists|o: FsOutcome| #[trigger]
        F::may(d.fs, FsOp::ListDir(p), d.fs, o) && match o {
            FsOutcome::Children(c) => if offset >= c.len() {
                (e, a) == (d, Answer::DirPagePlus(Seq::empty(), None))
            } else {
                exists|stats: Seq<FsOutcome>| #[trigger]
                    child_stats(d.fs, p, c.skip(offset as int), stats) && {
                        let (x, entries) = list_plus(d, p, c.skip(offset as int), stats);
                        (e, a) == (x, Answer::DirPagePlus(entries, None))
                    }
            },
            FsOutcome::Failed(f) => (e, a) == failed(d, f),
            _ => (e, a) == (d, Answer::Error(EIO)),
        }
}

/// The file must be there; a truncating open for writing empties it first.
pub open spec fn serves_open<F: HostFs>(
    d: Desk<F>,
    ino: Ino,
    flags: OpenFlags,
    e: Desk<F>,
    a: Answer,
) -> bool {
    let p = d.table[ino];
    exists|o: FsOutcome| #[trigger]
        F::may(d.fs, FsOp::Stat(p), d.fs, o) && match o {
            FsOutcome::Attr(_) => if flags.truncate && flags.write {
                one_op(
                    d,
                    FsOp::Truncate { path: p, size: 0 },
                    |x: Desk<F>, o2: FsOutcome|
                        match o2 {
                            FsOutcome::Done => opened(changed(x, ino), ino, flags),
                            FsOutcome::Failed(f) => failed(x, f),
                            _ => (x, Answer::Error(EIO)),
                        },
                    e,
                    a,
                )
            } else {
                (e, a) == opened(d, ino, flags)
            },
            FsOutcome::Failed(f) => (e, a) == failed(d, f),
            _ => (e, a) == (d, Answer::Error(EIO)),
        }
}

/// A write at `offset`, or at the end of the file for a handle that appends.
pub open spec fn serves_write<F: HostFs>(
    d: Desk<F>,
    ino: Ino,
    handle: u64,
    offset: u64,
    data: Seq<u8>,
    e: Desk<F>,
    a: Answer,
) -> bool {
    let p = d.table[ino];
    if appends(d, handle) {
        exists|o: FsOutcome| #[trigger]
            F::may(d.fs, FsOp::Stat(p), d.fs, o) && match o {
                FsOutcome::Attr(at) => one_op(
                    d,
                    FsOp::Write { path: p, offset: at.size, data },
                    |x: Desk<F>, o2: FsOutcome| write_reply(x, ino, data.len(), o2),
                    e,
                    a,
                ),
                FsOutcome::Failed(f) => (e, a) == failed(d, f),
                _ => (e, a) == (d, Answer::Error(EIO)),
            }
    } else {
        one_op(
            d,
            FsOp::Write { path: p, offset, data },
            |x: Desk<F>, o: FsOutcome| write_reply(x, ino, data.len(), o),
            e,
            a,
        )
    }
}

/// Whether every child of a directory can be given a number.
pub open spec fn listing_fits<F: HostFs>(d: Desk<F>, p: Seq<Comp>) -> bool {
    forall|c: Seq<ChildView>| #[trigger]
        F::may(d.fs, FsOp::ListDir(p), d.fs, FsOutcome::Children(c)) ==> d.next + c.len()
            < Ino::MAX
}

/// Whether a request that is not a batch stays within the machine's limits:
/// the counters have room, and the sizes fit the filesystem.
pub open spec fn within_limits<F: HostFs>(d: Desk<F>, req: Request) -> bool {
    &&& d.next < Ino::MAX
    &&& d.last_handle < u64::MAX
    &&& match req {
        Request::ReadDir { ino, .. } => listing_fits(d, d.table[ino]),
        Request::ReadDirPlus { ino, .. } => listing_fits(d, d.table[ino]),
        Request::Open { ino, .. } => F::fits(FsOp::Truncate { path: d.table[ino], size: 0 }),
        Request::Write { ino, offset, data, .. } => {
            &&& F::fits(FsOp::Write { path: d.table[ino], offset, data: bytes_contents(data) })
            &&& forall|at: FileAttr| #[trigger]
                F::may(d.fs, FsOp::Stat(d.table[ino]), d.fs, FsOutcome::Attr(at)) ==> F::fits(
                    FsOp::Write {
                        path: d.table[ino],
                        offset: at.size,
                        data: bytes_contents(data),
                    },
                )
        },
        Request::Create { .. } => d.fs.room() > 0,
        Request::Mkdir { .. } => d.fs.room() > 0,
        Request::Truncate { ino, size } => F::fits(
            FsOp::Truncate { path: d.table[ino], size },
        ),
        _ => true,
    }
}

/// The dispatcher: a filesystem with its inode table, open handles and
/// generations.
pub struct Dispatcher<F> {
    fs: F,
    inodes: InodeTable,
    handles: OpenHandles,
    generations: Generations,
}

impl<F: HostFs> View for Dispatcher<F> {
    type V = Desk<F>;

    closed spec fn view(&self) -> Desk<F> {
        Desk {
            fs: self.fs,
            table: self.inodes@,
            next: self.inodes.next(),
            handles: self.handles@,
            last_handle: self.handles.last(),
            gens: self.generations@,
        }
    }
}

impl<F: HostFs> Dispatcher<F> {
    /// The inode table and the filesystem are sound.
    pub closed spec fn wf(&self) -> bool {
        self.inodes.wf() && self.fs.sound()
    }

    pub fn new(fs: F) -> (r: Self)
        requires
            fs.sound(),
        ensures
            r.wf(),
            r@ == (Desk {
                fs,
                table: map![ROOT_INO => Seq::<Comp>::empty()],
                next: (ROOT_INO + 1) as Ino,
                handles: Map::empty(),
                last_handle: 0,
                gens: Map::empty(),
            }),
    {
        Dispatcher {
            fs,
            inodes: InodeTable::new(),
            handles: OpenHandles::new(),
            generations: Generations::new(),
        }
    }

    /// The filesystem behind the dispatcher.
    pub fn fs(&self) -> (r: &F)
        ensures
            *r == self@.fs,
    {
        &self.fs
    }

    /// The inode table.
    pub fn inodes(&self) -> (r: &InodeTable)
        requires
            self.wf(),
        ensures
            r.wf(),
            r@ == self@.table,
            r.next() == self@.next,
    {
        &self.inodes
    }

    /// The filesystem behind the dispatcher, to be changed from the host's side.
    pub fn fs_mut(&mut self) -> (r: &mut F)
        requires
            old(self).wf(),
        ensures
            *r == old(self)@.fs,
            final(self)@ == (Desk { fs: *final(r), ..old(self)@ }),
            final(r).sound() ==> final(self).wf(),
    {
        &mut self.fs
    }

    /// The pushes for an event under `root` that the host saw.
    pub fn observe(&mut self, root: &HostPath, kind: EventKind, paths: &Vec<HostPath>) -> (out: Vec<
        Push,
    >)
        requires
            old(self).wf(),
        ensures
            final(self).wf(),
            (final(self)@.gens, push_views(out@)) == event_pushes(
                old(self)@.table,
                old(self)@.gens,
                root@,
                kind,
                path_views(paths@),
            ),
            final(self)@ == (Desk { gens: final(self)@.gens, ..old(self)@ }),
    {
        translate(root, &self.inodes, &mut self.generations, kind, paths)
    }

    /// Start to prefetch the files of the share.
    pub fn start_prefetch(&self, config: PrefetchConfig) -> (r: Prefetch)
        requires
            self.wf(),
        ensures
            r.wf(),
            r.done() == 0,
            r.sent() == 0,
            r.counted() == (ShipTally { files: 0, chunks: 0, bytes: 0, skipped: 0 }),
            r.bounds() == config,
            exists|found: Seq<ItemView>| #[trigger]
                finds(
                    self@.fs,
                    seq![Seq::<Comp>::empty()],
                    u64::MAX as nat,
                    config.max_file_bytes,
                    found,
                ) && ordered_by_size(found, r.files()),
    {
        let run: Prefetch = Prefetch::start(&self.fs, config);
        proof {
            let root = seq![Seq::<Comp>::empty()];
            let found = choose|found: Seq<ItemView>| #[trigger]
                finds(self.fs, root, u64::MAX as nat, config.max_file_bytes, found)
                    && ordered_by_size(found, run.files());
            assert(finds(self@.fs, root, u64::MAX as nat, config.max_file_bytes, found));
        }
        run
    }

    /// The chunks of the next file to prefetch. `None` once the files or the
    /// budget are used up.
    pub fn prefetch_next(&mut self, run: &mut Prefetch) -> (r: Option<Vec<Push>>)
        requires
            old(self).wf(),
            old(run).wf(),
            old(self)@.next < Ino::MAX,
        ensures
            final(self).wf(),
            final(run).wf(),
            final(run).files() == old(run).files(),
            final(run).bounds() == old(run).bounds(),
            ({
                let files = old(run).files();
                let k = next_eligible(files, old(run).done(), old(run).bounds().max_file_bytes);
                let passed = k - old(run).done();
                if old(run).sent() >= old(run).bounds().max_total_bytes {
                    r is None && final(self)@ == old(self)@ && *final(run) == *old(run)
                } else if k >= files.len() {
                    &&& r is None
                    &&& final(self)@ == old(self)@
                    &&& final(run).sent() == old(run).sent()
                    &&& final(run).done() == k
                    &&& final(run).counted() == passed_over(old(run).counted(), passed)
                } else {
                    let d = interned(old(self)@, files[k].path);
                    &&& r is Some
                    &&& final(run).done() == k + 1
                    &&& final(run).counted() == file_shipped(
                        passed_over(old(run).counted(), passed),
                        r->0@.len() as int,
                        final(run).sent(),
                    )
                    &&& final(self)@ == d.0
                    &&& ships(
                        old(self)@.fs,
                        files[k],
                        d.1,
                        generation(old(self)@.gens, d.1),
                        old(run).bounds(),
                        0,
                        0,
                        old(run).sent(),
                        push_views(r->0@),
                        final(run).sent(),
                    )
                }
            }),
    {
        run.next_file(&self.fs, &mut self.inodes, &self.generations)
    }

    fn resolve_ino(&self, ino: Ino) -> (r: Result<HostPath, Response>)
        requires
            self.wf(),
        ensures
            r is Ok <==> self@.table.dom().contains(ino),
            r matches Ok(p) ==> p@ == self@.table[ino],
            r matches Err(e) ==> e.answer() == Answer::Error(ENOENT),
    {
        match self.inodes.path(ino) {
            Some(p) => Ok(p.clone()),
            None => Err(Response::Error { errno: ENOENT }),
        }
    }

    fn intern(&mut self, path: &HostPath) -> (ino: Ino)
        requires
            old(self).wf(),
            old(self)@.next < Ino::MAX,
        ensures
            final(self).wf(),
            (final(self)@, ino) == interned(old(self)@, path@),
    {
        self.inodes.intern(path)
    }

    /// Answer with the attributes of `path` under its number.
    fn entry(&mut self, path: &HostPath, r: Result<FileAttr, HostError>) -> (resp: Response)
        requires
            old(self).wf(),
            old(self)@.next < Ino::MAX,
        ensures
            final(self).wf(),
            (final(self)@, resp.answer()) == entry_reply(old(self)@, path@, attr_outcome(r)),
    {
        match r {
            Ok(attr) => {
                let ino: Ino = self.intern(path);
                let mut attr: FileAttr = attr;
                attr.ino = ino;
                Response::Entry { attr }
            },
            Err(err) => Response::Error { errno: err.errno() },
        }
    }

    fn lookup(&mut self, parent: Ino, name: &String) -> (resp: Response)
        requires
            old(self).wf(),
            old(self)@.next < Ino::MAX,
        ensures
            final(self).wf(),
            serves(
                old(self)@,
                (Request::Lookup { parent, name: *name }),
                final(self)@,
                resp.answer(),
            ),
    {
        let dir: HostPath = match self.resolve_ino(parent) {
            Ok(p) => p,
            Err(r) => {
                return r;
            },
        };
        let path: HostPath = dir.join(name);
        let r = self.fs.stat(&path);
        assert(F::may(self@.fs, FsOp::Stat(path@), self@.fs, attr_outcome(r)));
        self.entry(&path, r)
    }

    fn getattr(&mut self, ino: Ino) -> (resp: Response)
        requires
            old(self).wf(),
        ensures
            final(self).wf(),
            serves(old(self)@, (Request::GetAttr { ino }), final(self)@, resp.answer()),
    {
        let path: HostPath = match self.resolve_ino(ino) {
            Ok(p) => p,
            Err(r) => {
                return r;
            },
        };
        let r = self.fs.stat(&path);
        assert(F::may(self@.fs, FsOp::Stat(path@), self@.fs, attr_outcome(r)));
        match r {
            Ok(attr) => {
                let mut attr: FileAttr = attr;
                attr.ino = ino;
                Response::Attr(attr)
            },
            Err(err) => Response::Error { errno: err.errno() },
        }
    }

    fn readdir(&mut self, ino: Ino, offset: u64) -> (resp: Response)
        requires
            old(self).wf(),
            within_limits(old(self)@, (Request::ReadDir { ino, offset })),
        ensures
            final(self).wf(),
            serves(old(self)@, (Request::ReadDir { ino, offset }), final(self)@, resp.answer()),
    {
        let path: HostPath = match self.resolve_ino(ino) {
            Ok(p) => p,
            Err(r) => {
                return r;
            },
        };
        let ghost d = self@;
        let listed = self.fs.list_dir(&path);
        assert(F::may(d.fs, FsOp::ListDir(path@), d.fs, children_outcome(listed)));
        let children: Vec<DirChild> = match listed {
            Ok(c) => c,
            Err(err) => {
                return Response::Error { errno: err.errno() };
            },
        };
        assert(F::may(
            d.fs,
            FsOp::ListDir(d.table[ino]),
            d.fs,
            FsOutcome::Children(child_views(children@)),
        ));
        let mut entries: Vec<DirEntry> = Vec::new();
        if offset >= children.len() as u64 {
            assert(entry_views(entries@) =~= Seq::<EntryView>::empty());
            return Response::DirPage { entries, next_offset: None };
        }
        let start: usize = offset as usize;
        let ghost part = child_views(children@).skip(start as int);
        let mut i: usize = start;
        proof {
            assert(part.take(0) =~= Seq::<ChildView>::empty());
            assert(entry_views(entries@) =~= Seq::<EntryView>::empty());
        }
        while i < children.len()
            invariant
                start <= i <= children@.len(),
                part == child_views(children@).skip(start as int),
                self.wf(),
                d.next + children@.len() < Ino::MAX,
                self@.next <= d.next + (i - start),
                (self@, entry_views(entries@)) == list_entries(d, path@, part.take(i - start)),
            decreases children@.len() - i,
        {
            let ghost before = entries@;
            let ghost mid = self@;
            let child_path: HostPath = path.join(&children[i].name);
            let child_ino: Ino = self.intern(&child_path);
            entries.push(
                DirEntry { ino: child_ino, name: children[i].name.clone(), kind: children[i].kind },
            );
            proof {
                let k = i - start;
                assert(part.take(k + 1).drop_last() =~= part.take(k));
                assert(part.take(k + 1).last() == children@[i as int]@);
                assert(entry_views(entries@) =~= entry_views(before).push(entries@.last()@));
            }
            i += 1;
        }
        assert(part.take(part.len() as int) =~= part);
        Response::DirPage { entries, next_offset: None }
    }

    fn readdirplus(&mut self, ino: Ino, offset: u64) -> (resp: Response)
        requires
            old(self).wf(),
            within_limits(old(self)@, (Request::ReadDirPlus { ino, offset })),
        ensures
            final(self).wf(),
            serves(
                old(self)@,
                (Request::ReadDirPlus { ino, offset }),
                final(self)@,
                resp.answer(),
            ),
    {
        let path: HostPath = match self.resolve_ino(ino) {
            Ok(p) => p,
            Err(r) => {
                return r;
            },
        };
        let ghost d = self@;
        let listed = self.fs.list_dir(&path);
        assert(F::may(d.fs, FsOp::ListDir(path@), d.fs, children_outcome(listed)));
        let children: Vec<DirChild> = match listed {
            Ok(c) => c,
            Err(err) => {
                return Response::Error { errno: err.errno() };
            },
        };
        assert(F::may(
            d.fs,
            FsOp::ListDir(d.table[ino]),
            d.fs,
            FsOutcome::Children(child_views(children@)),
        ));
        let mut entries: Vec<DirEntryPlus> = Vec::new();
        if offset >= children.len() as u64 {
            assert(entry_plus_views(entries@) =~= Seq::<EntryPlusView>::empty());
            return Response::DirPagePlus { entries, next_offset: None };
        }
        let start: usize = offset as usize;
        let ghost part = child_views(children@).skip(start as int);
        let ghost mut stats: Seq<FsOutcome> = Seq::empty();
        let mut i: usize = start;
        proof {
            assert(part.take(0) =~= Seq::<ChildView>::empty());
            assert(entry_plus_views(entries@) =~= Seq::<EntryPlusView>::empty());
        }
        while i < children.len()
            invariant
                start <= i <= children@.len(),
                part == child_views(children@).skip(start as int),
                self.wf(),
                self@.fs == d.fs,
                d.next + children@.len() < Ino::MAX,
                self@.next <= d.next + (i - start),
                child_stats(d.fs, path@, part.take(i - start), stats),
                (self@, entry_plus_views(entries@)) == list_plus(
                    d,
                    path@,
                    part.take(i - start),
                    stats,
                ),
            decreases children@.len() - i,
        {
            let ghost before = entries@;
            let ghost earlier = stats;
            let child_path: HostPath = path.join(&children[i].name);
            let r = self.fs.stat(&child_path);
            proof {
                let k = i - start;
                stats = stats.push(attr_outcome(r));
                assert(part.take(k + 1).drop_last() =~= part.take(k));
                assert(part.take(k + 1).last() == children@[i as int]@);
                lemma_plus_prefix(d, path@, part.take(k), earlier, stats);
                assert(child_stats(d.fs, path@, part.take(k + 1), stats)) by {
                    assert forall|j: int|
                        #![trigger stats[j]]
                        0 <= j < part.take(k + 1).len() implies F::may(
                        d.fs,
                        FsOp::Stat(join_path(path@, parse_path(part.take(k + 1)[j].name))),
                        d.fs,
                        stats[j],
                    ) by {
                        if j < k {
                            assert(stats[j] == earlier[j]);
                            assert(part.take(k + 1)[j] == part.take(k)[j]);
                        }
                    }
                }
            }
            if let Ok(attr) = r {
                let child_ino: Ino = self.intern(&child_path);
                let mut attr: FileAttr = attr;
                attr.ino = child_ino;
                entries.push(
                    DirEntryPlus {
                        name: children[i].name.clone(),
                        kind: children[i].kind,
                        attr,
                    },
                );
                assert(entry_plus_views(entries@) =~= entry_plus_views(before).push(
                    entries@.last()@,
                ));
            }
            i += 1;
        }
        proof {
            assert(part.take(part.len() as int) =~= part);
            assert(child_stats(d.fs, path@, part, stats));
        }
        Response::DirPagePlus { entries, next_offset: None }
    }

    fn open(&mut self, ino: Ino, flags: OpenFlags) -> (resp: Response)
        requires
            old(self).wf(),
            within_limits(old(self)@, (Request::Open { ino, flags })),
        ensures
            final(self).wf(),
            serves(old(self)@, (Request::Open { ino, flags }), final(self)@, resp.answer()),
    {
        let path: HostPath = match self.resolve_ino(ino) {
            Ok(p) => p,
            Err(r) => {
                return r;
            },
        };
        let ghost d = self@;
        let seen = self.fs.stat(&path);
        assert(F::may(d.fs, FsOp::Stat(path@), d.fs, attr_outcome(seen)));
        if let Err(err) = seen {
            return Response::Error { errno: err.errno() };
        }
        // A truncating open empties the file at once; on a read-only open the
        // flag is ignored.
        if flags.truncate && flags.write {
            let cut = self.fs.truncate(&path, 0);
            assert(F::may(
                d.fs,
                FsOp::Truncate { path: path@, size: 0 },
                self@.fs,
                unit_outcome(cut),
            ));
            if let Err(err) = cut {
                return Response::Error { errno: err.errno() };
            }
            self.generations.bump(ino);
        }
        Response::OpenOk { handle: self.handles.allocate(ino, flags) }
    }

    fn release(&mut self, handle: u64) -> (resp: Response)
        requires
            old(self).wf(),
        ensures
            final(self).wf(),
            (final(self)@, resp.answer()) == (
                Desk { handles: old(self)@.handles.remove(handle), ..old(self)@ },
                Answer::Done,
            ),
    {
        self.handles.release(handle);
        Response::Done
    }

    fn read(&mut self, ino: Ino, handle: u64, offset: u64, size: u32) -> (resp: Response)
        requires
            old(self).wf(),
        ensures
            final(self).wf(),
            serves(
                old(self)@,
                (Request::Read { ino, handle, offset, size }),
                final(self)@,
                resp.answer(),
            ),
    {
        if handle != 0 {
            if let Some(state) = self.handles.get(handle) {
                if !state.flags.read {
                    return Response::Error { errno: EBADF };
                }
            }
        }
        let path: HostPath = match self.resolve_ino(ino) {
            Ok(p) => p,
            Err(r) => {
                return r;
            },
        };
        let r = self.fs.read(&path, offset, size);
        assert(F::may(
            self@.fs,
            FsOp::Read { path: path@, offset, size },
            self@.fs,
            data_outcome(r),
        ));
        match r {
            Ok(b) => Response::bytes(b, self.generations.current(ino)),
            Err(err) => Response::Error { errno: err.errno() },
        }
    }

    fn write(&mut self, ino: Ino, handle: u64, offset: u64, data: &Bytes) -> (resp: Response)
        requires
            old(self).wf(),
            within_limits(old(self)@, (Request::Write { ino, handle, offset, data: *data })),
        ensures
            final(self).wf(),
            serves(
                old(self)@,
                (Request::Write { ino, handle, offset, data: *data }),
                final(self)@,
                resp.answer(),
            ),
    {
        let ghost d = self@;
        // Handle 0 comes from callers that track no handles.
        let mut append: bool = false;
        if handle != 0 {
            if let Some(state) = self.handles.get(handle) {
                if !state.flags.write {
                    return Response::Error { errno: EBADF };
                }
                append = state.flags.append;
            }
        }
        let path: HostPath = match self.resolve_ino(ino) {
            Ok(p) => p,
            Err(r) => {
                return r;
            },
        };
        let mut effective_offset: u64 = offset;
        if append {
            // Asked afresh, so that the bytes land at the end even if the file
            // grew through another handle.
            let seen = self.fs.stat(&path);
            assert(F::may(d.fs, FsOp::Stat(path@), d.fs, attr_outcome(seen)));
            match seen {
                Ok(attr) => {
                    effective_offset = attr.size;
                },
                Err(err) => {
                    return Response::Error { errno: err.errno() };
                },
            }
        }
        let bytes: &[u8] = bytes_slice(data);
        let len: u32 = bytes.len() as u32;
        let r = self.fs.write(&path, effective_offset, bytes);
        proof {
            let op = FsOp::Write {
                path: path@,
                offset: effective_offset,
                data: bytes_contents(*data),
            };
            assert(F::may(d.fs, op, self@.fs, size_outcome(r)));
        }
        match r {
            Ok(_) => {
                self.generations.bump(ino);
                Response::Written { bytes: len }
            },
            Err(err) => Response::Error { errno: err.errno() },
        }
    }

    fn create(&mut self, parent: Ino, name: &String, mode: u16, flags: OpenFlags) -> (resp:
        Response)
        requires
            old(self).wf(),
            within_limits(old(self)@, (Request::Create { parent, name: *name, mode, flags })),
        ensures
            final(self).wf(),
            serves(
                old(self)@,
                (Request::Create { parent, name: *name, mode, flags }),
                final(self)@,
                resp.answer(),
            ),
    {
        let dir: HostPath = match self.resolve_ino(parent) {
            Ok(p) => p,
            Err(r) => {
                return r;
            },
        };
        let ghost d = self@;
        let path: HostPath = dir.join(name);
        let r = self.fs.create(&path, mode);
        assert(F::may(d.fs, FsOp::Create { path: path@, mode }, self@.fs, attr_outcome(r)));
        self.entry(&path, r)
    }

    fn mkdir(&mut self, parent: Ino, name: &String, mode: u16) -> (resp: Response)
        requires
            old(self).wf(),
            within_limits(old(self)@, (Request::Mkdir { parent, name: *name, mode })),
        ensures
            final(self).wf(),
            serves(
                old(self)@,
                (Request::Mkdir { parent, name: *name, mode }),
                final(self)@,
                resp.answer(),
            ),
    {
        let dir: HostPath = match self.resolve_ino(parent) {
            Ok(p) => p,
            Err(r) => {
                return r;
            },
        };
        let ghost d = self@;
        let path: HostPath = dir.join(name);
        let r = self.fs.mkdir(&path, mode);
        assert(F::may(d.fs, FsOp::Mkdir { path: path@, mode }, self@.fs, attr_outcome(r)));
        self.entry(&path, r)
    }

    /// Forget a path that was removed.
    fn removed(&mut self, path: &HostPath, r: Result<(), HostError>) -> (resp: Response)
        requires
            old(self).wf(),
        ensures
            final(self).wf(),
            (final(self)@, resp.answer()) == remove_reply(old(self)@, path@, unit_outcome(r)),
    {
        match r {
            Ok(_) => {
                self.inodes.forget_path(path);
                Response::Done
            },
            Err(err) => Response::Error { errno: err.errno() },
        }
    }

    fn unlink(&mut self, parent: Ino, name: &String) -> (resp: Response)
        requires
            old(self).wf(),
        ensures
            final(self).wf(),
            serves(
                old(self)@,
                (Request::Unlink { parent, name: *name }),
                final(self)@,
                resp.answer(),
            ),
    {
        let dir: HostPath = match self.resolve_ino(parent) {
            Ok(p) => p,
            Err(r) => {
                return r;
            },
        };
        let ghost d = self@;
        let path: HostPath = dir.join(name);
        let r = self.fs.unlink(&path);
        assert(F::may(d.fs, FsOp::Unlink(path@), self@.fs, unit_outcome(r)));
        self.removed(&path, r)
    }

    fn rmdir(&mut self, parent: Ino, name: &String) -> (resp: Response)
        requires
            old(self).wf(),
        ensures
            final(self).wf(),
            serves(
                old(self)@,
                (Request::Rmdir { parent, name: *name }),
                final(self)@,
                resp.answer(),
            ),
    {
        let dir: HostPath = match self.resolve_ino(parent) {
            Ok(p) => p,
            Err(r) => {
                return r;
            },
        };
        let ghost d = self@;
        let path: HostPath = dir.join(name);
        let r = self.fs.rmdir(&path);
        assert(F::may(d.fs, FsOp::Rmdir(path@), self@.fs, unit_outcome(r)));
        self.removed(&path, r)
    }

    fn rename(
        &mut self,
        old_parent: Ino,
        old_name: &String,
        new_parent: Ino,
        new_name: &String,
    ) -> (resp: Response)
        requires
            old(self).wf(),
        ensures
            final(self).wf(),
            serves(
                old(self)@,
                (Request::Rename {
                    old_parent,
                    old_name: *old_name,
                    new_parent,
                    new_name: *new_name,
                }),
                final(self)@,
                resp.answer(),
            ),
    {
        let old_dir: HostPath = match self.resolve_ino(old_parent) {
            Ok(p) => p,
            Err(r) => {
                return r;
            },
        };
        let new_dir: HostPath = match self.resolve_ino(new_parent) {
            Ok(p) => p,
            Err(r) => {
                return r;
            },
        };
        let ghost d = self@;
        let from: HostPath = old_dir.join(old_name);
        let to: HostPath = new_dir.join(new_name);
        let r = self.fs.rename(&from, &to);
        assert(F::may(
            d.fs,
            FsOp::Rename { from: from@, to: to@ },
            self@.fs,
            unit_outcome(r),
        ));
        match r {
            Ok(_) => {
                self.inodes.rename(&from, &to);
                Response::Done
            },
            Err(err) => Response::Error { errno: err.errno() },
        }
    }

    /// Answer a change of `ino` that returns nothing.
    fn changed(&mut self, ino: Ino, r: Result<(), HostError>) -> (resp: Response)
        requires
            old(self).wf(),
        ensures
            final(self).wf(),
            (final(self)@, resp.answer()) == change_reply(old(self)@, ino, unit_outcome(r)),
    {
        match r {
            Ok(_) => {
                self.generations.bump(ino);
                Response::Done
            },
            Err(err) => Response::Error { errno: err.errno() },
        }
    }

    fn truncate(&mut self, ino: Ino, size: u64) -> (resp: Response)
        requires
            old(self).wf(),
            within_limits(old(self)@, (Request::Truncate { ino, size })),
        ensures
            final(self).wf(),
            serves(old(self)@, (Request::Truncate { ino, size }), final(self)@, resp.answer()),
    {
        let path: HostPath = match self.resolve_ino(ino) {
            Ok(p) => p,
            Err(r) => {
                return r;
            },
        };
        let ghost d = self@;
        let r = self.fs.truncate(&path, size);
        assert(F::may(d.fs, FsOp::Truncate { path: path@, size }, self@.fs, unit_outcome(r)));
        self.changed(ino, r)
    }

    fn chmod(&mut self, ino: Ino, mode: u16) -> (resp: Response)
        requires
            old(self).wf(),
        ensures
            final(self).wf(),
            serves(old(self)@, (Request::Chmod { ino, mode }), final(self)@, resp.answer()),
    {
        let path: HostPath = match self.resolve_ino(ino) {
            Ok(p) => p,
            Err(r) => {
                return r;
            },
        };
        let ghost d = self@;
        let r = self.fs.chmod(&path, mode);
        assert(F::may(d.fs, FsOp::Chmod { path: path@, mode }, self@.fs, unit_outcome(r)));
        self.changed(ino, r)
    }

    fn fsync(&mut self, ino: Ino, handle: u64, data_only: bool) -> (resp: Response)
        requires
            old(self).wf(),
        ensures
            final(self).wf(),
            serves(
                old(self)@,
                (Request::Fsync { ino, handle, data_only }),
                final(self)@,
                resp.answer(),
            ),
    {
        let path: HostPath = match self.resolve_ino(ino) {
            Ok(p) => p,
            Err(r) => {
                return r;
            },
        };
        let r = self.fs.fsync(&path);
        assert(F::may(self@.fs, FsOp::Fsync(path@), self@.fs, unit_outcome(r)));
        match r {
            Ok(_) => Response::Done,
            Err(err) => Response::Error { errno: err.errno() },
        }
    }

    /// Carry out one request that is not a batch; a batch here would be nested,
    /// and is refused.
    fn dispatch_one(&mut self, req: &Request) -> (resp: Response)
        requires
            old(self).wf(),
            within_limits(old(self)@, *req),
        ensures
            final(self).wf(),
            serves(old(self)@, *req, final(self)@, resp.answer()),
    {
        match req {
            Request::Lookup { parent, name } => self.lookup(*parent, name),
            Request::GetAttr { ino } => self.getattr(*ino),
            Request::ReadDir { ino, offset } => self.readdir(*ino, *offset),
            Request::ReadDirPlus { ino, offset } => self.readdirplus(*ino, *offset),
            Request::Open { ino, flags } => self.open(*ino, *flags),
            Request::Release { handle, .. } => self.release(*handle),
            Request::Read { ino, handle, offset, size } => self.read(*ino, *handle, *offset, *size),
            Request::Write { ino, handle, offset, data } => self.write(
                *ino,
                *handle,
                *offset,
                data,
            ),
            Request::Create { parent, name, mode, flags } => self.create(
                *parent,
                name,
                *mode,
                *flags,
            ),
            Request::Mkdir { parent, name, mode } => self.mkdir(*parent, name, *mode),
            Request::Unlink { parent, name } => self.unlink(*parent, name),
            Request::Rmdir { parent, name } => self.rmdir(*parent, name),
            Request::Rename { old_parent, old_name, new_parent, new_name } => self.rename(
                *old_parent,
                old_name,
                *new_parent,
                new_name,
            ),
            Request::Symlink { .. } => Response::Error { errno: ENOSYS },
            Request::ReadLink { .. } => Response::Error { errno: ENOSYS },
            Request::Truncate { ino, size } => self.truncate(*ino, *size),
            Request::Chmod { ino, mode } => self.chmod(*ino, *mode),
            Request::Fsync { ino, handle, data_only } => self.fsync(*ino, *handle, *data_only),
            Request::StatFs { .. } => Response::StatFs(default_statfs()),
            Request::Batch(_) => Response::Error { errno: EINVAL },
        }
    }

    fn dispatch_batch(&mut self, reqs: &Vec<Request>) -> (out: Vec<Response>)
        requires
            old(self).wf(),
            batch_within_limits(old(self)@, reqs@),
        ensures
            final(self).wf(),
            serves_all(old(self)@, reqs@, final(self)@, answers(out@)),
    {
        let ghost d = self@;
        let mut out: Vec<Response> = Vec::new();
        let mut i: usize = 0;
        proof {
            assert(reqs@.take(0) =~= Seq::<Request>::empty());
            assert(reqs@.skip(0) =~= reqs@);
            assert(answers(out@) =~= Seq::<Answer>::empty());
        }
        while i < reqs.len()
            invariant
                i <= reqs@.len(),
                self.wf(),
                batch_within_limits(self@, reqs@.skip(i as int)),
                serves_all(d, reqs@.take(i as int), self@, answers(out@)),
            decreases reqs@.len() - i,
        {
            let ghost mid = self@;
            let ghost before = out@;
            proof {
                assert(reqs@.skip(i as int)[0] == reqs@[i as int]);
                assert(reqs@.skip(i as int).drop_first() =~= reqs@.skip(i + 1));
                assert(reqs@.take(i + 1).drop_last() =~= reqs@.take(i as int));
            }
            let resp: Response = self.dispatch_one(&reqs[i]);
            let ghost a = resp.answer();
            out.push(resp);
            proof {
                assert(answers(out@) =~= answers(before).push(a));
                assert(answers(out@).drop_last() =~= answers(before));
                assert(serves_all(
                    d,
                    reqs@.take(i + 1).drop_last(),
                    mid,
                    answers(out@).drop_last(),
                ));
                assert(serves(mid, reqs@.take(i + 1).last(), self@, answers(out@).last()));
            }
            i += 1;
        }
        assert(reqs@.take(reqs@.len() as int) =~= reqs@);
        out
    }

    /// Take in a frame: a request is carried out and answered, under its id.
    /// Other frames are not for the host.
    pub fn on_frame(&mut self, frame: Frame) -> (r: Option<Frame>)
        requires
            old(self).wf(),
            frame matches Frame::Request { body, .. } ==> request_within_limits(old(self)@, body),
        ensures
            final(self).wf(),
            match frame {
                Frame::Request { id, body } => r matches Some(Frame::Response { id: rid, body: b })
                    && rid == id && handles(old(self)@, body, final(self)@, b.answer()),
                _ => r is None && final(self)@ == old(self)@,
            },
    {
        match frame {
            Frame::Request { id, body } => Some(self.handle(id, body)),
            _ => None,
        }
    }

    /// Carry out a request. The requests of a batch are carried out in order,
    /// and answered in order.
    pub fn handle(&mut self, id: RequestId, req: Request) -> (frame: Frame)
        requires
            old(self).wf(),
            request_within_limits(old(self)@, req),
        ensures
            final(self).wf(),
            frame matches Frame::Response { id: rid, body } && rid == id && handles(
                old(self)@,
                req,
                final(self)@,
                body.answer(),
            ),
    {
        let body: Response = match &req {
            Request::Batch(reqs) => {
                let items: Vec<Response> = self.dispatch_batch(reqs);
                let body = Response::Batch(items);
                proof {
                    lemma_batch_answer(items);
                }
                body
            },
            _ => self.dispatch_one(&req),
        };
        Frame::Response { id, body }
    }
}

/// The answers of a sequence of responses.
pub open spec fn answers(v: Seq<Response>) -> Seq<Answer> {
    Seq::new(v.len(), |i: int| v[i].answer())
}

proof fn lemma_batch_answer(items: Vec<Response>)
    ensures
        Response::Batch(items).answer() == Answer::Batch(answers(items@)),
{
    let a = Response::Batch(items).answer();
    assert(a->Batch_0 =~= answers(items@));
}

/// Whether the requests may lead one after the other from `d` to `e` with the
/// answers `a`.
pub open spec fn serves_all<F: HostFs>(
    d: Desk<F>,
    reqs: Seq<Request>,
    e: Desk<F>,
    a: Seq<Answer>,
) -> bool
    decreases reqs.len(),
{
    if reqs.len() == 0 {
        e == d && a.len() == 0
    } else {
        &&& a.len() == reqs.len()
        &&& exists|mid: Desk<F>| #[trigger]
            serves(mid, reqs.last(), e, a.last()) && serves_all(
                d,
                reqs.drop_last(),
                mid,
                a.drop_last(),
            )
    }
}

/// Whether every request of a batch stays within the machine's limits in every
/// state that the ones before it may lead to.
pub open spec fn batch_within_limits<F: HostFs>(d: Desk<F>, reqs: Seq<Request>) -> bool
    decreases reqs.len(),
{
    reqs.len() > 0 ==> {
        &&& within_limits(d, reqs[0])
        &&& forall|e: Desk<F>, a: Answer| #[trigger]
            serves(d, reqs[0], e, a) ==> batch_within_limits(e, reqs.drop_first())
    }
}

/// Whether a request stays within the machine's limits.
pub open spec fn request_within_limits<F: HostFs>(d: Desk<F>, req: Request) -> bool {
    match req {
        Request::Batch(reqs) => batch_within_limits(d, reqs@),
        _ => within_limits(d, req),
    }
}

/// Whether a request may lead from `d` to `e` with the answer `a`.
pub open spec fn handles<F: HostFs>(d: Desk<F>, req: Request, e: Desk<F>, a: Answer) -> bool {
    match req {
        Request::Batch(reqs) => a matches Answer::Batch(items) && serves_all(d, reqs@, e, items),
        _ => serves(d, req, e, a),
    }
}

/// Later outcomes do not change what the earlier ones gave.
proof fn lemma_plus_prefix<F>(
    d: Desk<F>,
    p: Seq<Comp>,
    children: Seq<ChildView>,
    a: Seq<FsOutcome>,
    b: Seq<FsOutcome>,
)
    requires
        children.len() <= a.len(),
        children.len() <= b.len(),
        forall|i: int| 0 <= i < children.len() ==> a[i] == b[i],
    ensures
        list_plus(d, p, children, a) == list_plus(d, p, children, b),
    decreases children.len(),
{
    if children.len() > 0 {
        lemma_plus_prefix(d, p, children.drop_last(), a, b);
    }
}

/// The numbers that are reported for the filesystem.
fn default_statfs() -> (r: StatFs)
    ensures
        r == statfs_numbers(),
{
    StatFs { blocks: 0, bfree: 0, bavail: 0, files: 0, ffree: 0, bsize: 4096, namelen: 255 }
}

/// What a client wrote, it reads back: after a write that was answered with
/// success, a read of the same range of the same inode gives the bytes, their
/// digest, and a later generation than before the write.
pub proof fn law_dispatch_read_after_write<C: Clock>(
    d: Desk<MemFs<C>>,
    ino: Ino,
    offset: u64,
    data: Bytes,
    e: Desk<MemFs<C>>,
    n: u32,
    f: Desk<MemFs<C>>,
    a: Answer,
)
    requires
        bytes_contents(data).len() <= u32::MAX,
        serves(d, (Request::Write { ino, handle: 0, offset, data }), e, Answer::Written(n)),
        serves(
            e,
            (Request::Read { ino, handle: 0, offset, size: bytes_contents(data).len() as u32 }),
            f,
            a,
        ),
    ensures
        n == bytes_contents(data).len(),
        f == e,
        a == data_answer(bytes_contents(data), generation(e.gens, ino)),
        generation(d.gens, ino) < u64::MAX ==> generation(e.gens, ino) > generation(d.gens, ino),
{
    let b = bytes_contents(data);
    let p = d.table[ino];
    let op = FsOp::Write { path: p, offset, data: b };
    let (post, o) = choose|post: MemFs<C>, o: FsOutcome| #[trigger]
        MemFs::<C>::may(d.fs, op, post, o) && (e, Answer::Written(n)) == write_reply(
            Desk { fs: post, ..d },
            ino,
            b.len(),
            o,
        );
    let now = choose|now: i64| #[trigger]
        d.fs.timer().shows(now) && (post@, o) == tree_step(d.fs@, op, now);
    tree::law_read_after_write(d.fs@, p, offset as int, b, now);
    let op2 = FsOp::Read { path: p, offset, size: b.len() as u32 };
    let (post2, o2) = choose|post2: MemFs<C>, o2: FsOutcome| #[trigger]
        MemFs::<C>::may(e.fs, op2, post2, o2) && (f, a) == data_reply(
            Desk { fs: post2, ..e },
            ino,
            o2,
        );
    assert(o2 == FsOutcome::Data(b));
}

/// No request reaches outside the share: a name that leads out of it, or holds
/// a NUL, is refused with the errno of the failure and changes nothing.
pub proof fn law_escape_refused<C: Clock>(
    d: Desk<MemFs<C>>,
    parent: Ino,
    name: String,
    mode: u16,
    flags: OpenFlags,
    e: Desk<MemFs<C>>,
    a: Answer,
)
    requires
        d.table.dom().contains(parent),
        path_failure(child_path(d, parent, name@)) is Some,
        serves(d, (Request::Lookup { parent, name }), e, a) || serves(
            d,
            (Request::Create { parent, name, mode, flags }),
            e,
            a,
        ) || serves(d, (Request::Mkdir { parent, name, mode }), e, a) || serves(
            d,
            (Request::Unlink { parent, name }),
            e,
            a,
        ) || serves(d, (Request::Rmdir { parent, name }), e, a),
    ensures
        a == Answer::Error(errno_of(path_failure(child_path(d, parent, name@))->0)),
        e.table == d.table,
        e.fs@ == d.fs@,
        e.gens == d.gens,
        e.handles == d.handles,
{
    let p = child_path(d, parent, name@);
    tree::law_escape_refused(d.fs@, p, p, 0, Seq::empty(), mode, 0);
}

} // verus!
