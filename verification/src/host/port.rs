//! The port through which the host side talks to a filesystem.
//!
//! Two kinds of filesystem stand behind it: the in-memory tree, whose every
//! outcome is fixed by its state, and a real disk, whose outcomes depend on
//! the machine. What an operation may do is therefore a relation that each
//! filesystem states for itself.

use bytes::Bytes;
use vstd::prelude::*;

use crate::host::mem::{Clock, MemFs};
use crate::host::tree::{self, Tree};
use crate::host::{child_views, ChildView, DirChild, Failure, HostError};
use crate::path::{Comp, HostPath};
use crate::payload::bytes_contents;
use crate::protocol::{FileAttr, Ino};

verus! {

/// An operation on a filesystem, with its arguments.
pub enum FsOp {
    Stat(Seq<Comp>),
    Read { path: Seq<Comp>, offset: u64, size: u32 },
    Write { path: Seq<Comp>, offset: u64, data: Seq<u8> },
    Create { path: Seq<Comp>, mode: u16 },
    Mkdir { path: Seq<Comp>, mode: u16 },
    Unlink(Seq<Comp>),
    Rmdir(Seq<Comp>),
    Rename { from: Seq<Comp>, to: Seq<Comp> },
    Truncate { path: Seq<Comp>, size: u64 },
    Chmod { path: Seq<Comp>, mode: u16 },
    Fsync(Seq<Comp>),
    ListDir(Seq<Comp>),
}

/// What an operation returned.
pub enum FsOutcome {
    Attr(FileAttr),
    Data(Seq<u8>),
    Size(u64),
    Done,
    Children(Seq<ChildView>),
    Failed(Failure),
}

pub open spec fn attr_outcome(r: Result<FileAttr, HostError>) -> FsOutcome {
    match r {
        Ok(a) => FsOutcome::Attr(a),
        Err(e) => FsOutcome::Failed(e@),
    }
}

pub open spec fn data_outcome(r: Result<Bytes, HostError>) -> FsOutcome {
    match r {
        Ok(b) => FsOutcome::Data(bytes_contents(b)),
        Err(e) => FsOutcome::Failed(e@),
    }
}

pub open spec fn size_outcome(r: Result<u64, HostError>) -> FsOutcome {
    match r {
        Ok(n) => FsOutcome::Size(n),
        Err(e) => FsOutcome::Failed(e@),
    }
}

pub open spec fn unit_outcome(r: Result<(), HostError>) -> FsOutcome {
    match r {
        Ok(_) => FsOutcome::Done,
        Err(e) => FsOutcome::Failed(e@),
    }
}

pub open spec fn children_outcome(r: Result<Vec<DirChild>, HostError>) -> FsOutcome {
    match r {
        Ok(v) => FsOutcome::Children(child_views(v@)),
        Err(e) => FsOutcome::Failed(e@),
    }
}

/// Host filesystem operations. Paths are relative to the share root.
pub trait HostFs: Sized {
    /// What the filesystem keeps true of itself.
    spec fn sound(&self) -> bool;

    /// How many more inodes it can number.
    spec fn room(&self) -> u64;

    /// Whether the sizes in an operation stay within the machine's limits.
    spec fn fits(op: FsOp) -> bool;

    /// Whether `op` may lead from `pre` to `post` and return `r`.
    spec fn may(pre: Self, op: FsOp, post: Self, r: FsOutcome) -> bool;

    fn stat(&self, path: &HostPath) -> (r: Result<FileAttr, HostError>)
        requires
            self.sound(),
        ensures
            Self::may(*self, FsOp::Stat(path@), *self, attr_outcome(r)),
    ;

    fn read(&self, path: &HostPath, offset: u64, size: u32) -> (r: Result<Bytes, HostError>)
        requires
            self.sound(),
        ensures
            Self::may(*self, FsOp::Read { path: path@, offset, size }, *self, data_outcome(r)),
            r matches Ok(b) ==> bytes_contents(b).len() <= size,
    ;

    /// Gives the total number of bytes now in the file.
    fn write(&mut self, path: &HostPath, offset: u64, data: &[u8]) -> (r: Result<u64, HostError>)
        requires
            old(self).sound(),
            Self::fits(FsOp::Write { path: path@, offset, data: data@ }),
        ensures
            final(self).sound(),
            final(self).room() == old(self).room(),
            Self::may(
                *old(self),
                FsOp::Write { path: path@, offset, data: data@ },
                *final(self),
                size_outcome(r),
            ),
    ;

    fn create(&mut self, path: &HostPath, mode: u16) -> (r: Result<FileAttr, HostError>)
        requires
            old(self).sound(),
            old(self).room() > 0,
        ensures
            final(self).sound(),
            final(self).room() + 1 >= old(self).room(),
            Self::may(
                *old(self),
                FsOp::Create { path: path@, mode },
                *final(self),
                attr_outcome(r),
            ),
    ;

    fn mkdir(&mut self, path: &HostPath, mode: u16) -> (r: Result<FileAttr, HostError>)
        requires
            old(self).sound(),
            old(self).room() > 0,
        ensures
            final(self).sound(),
            final(self).room() + 1 >= old(self).room(),
            Self::may(*old(self), FsOp::Mkdir { path: path@, mode }, *final(self), attr_outcome(r)),
    ;

    fn unlink(&mut self, path: &HostPath) -> (r: Result<(), HostError>)
        requires
            old(self).sound(),
        ensures
            final(self).sound(),
            final(self).room() == old(self).room(),
            Self::may(*old(self), FsOp::Unlink(path@), *final(self), unit_outcome(r)),
    ;

    fn rmdir(&mut self, path: &HostPath) -> (r: Result<(), HostError>)
        requires
            old(self).sound(),
        ensures
            final(self).sound(),
            final(self).room() == old(self).room(),
            Self::may(*old(self), FsOp::Rmdir(path@), *final(self), unit_outcome(r)),
    ;

    /// The share root does not move.
    fn rename(&mut self, from: &HostPath, to: &HostPath) -> (r: Result<(), HostError>)
        requires
            old(self).sound(),
        ensures
            final(self).sound(),
            from@.len() == 0 && to@.len() > 0 ==> r is Err,
            final(self).room() == old(self).room(),
            Self::may(
                *old(self),
                FsOp::Rename { from: from@, to: to@ },
                *final(self),
                unit_outcome(r),
            ),
    ;

    fn truncate(&mut self, path: &HostPath, size: u64) -> (r: Result<(), HostError>)
        requires
            old(self).sound(),
            Self::fits(FsOp::Truncate { path: path@, size }),
        ensures
            final(self).sound(),
            final(self).room() == old(self).room(),
            Self::may(
                *old(self),
                FsOp::Truncate { path: path@, size },
                *final(self),
                unit_outcome(r),
            ),
    ;

    fn chmod(&mut self, path: &HostPath, mode: u16) -> (r: Result<(), HostError>)
        requires
            old(self).sound(),
        ensures
            final(self).sound(),
            final(self).room() == old(self).room(),
            Self::may(*old(self), FsOp::Chmod { path: path@, mode }, *final(self), unit_outcome(r)),
    ;

    fn fsync(&self, path: &HostPath) -> (r: Result<(), HostError>)
        requires
            self.sound(),
        ensures
            Self::may(*self, FsOp::Fsync(path@), *self, unit_outcome(r)),
    ;

    fn list_dir(&self, path: &HostPath) -> (r: Result<Vec<DirChild>, HostError>)
        requires
            self.sound(),
        ensures
            Self::may(*self, FsOp::ListDir(path@), *self, children_outcome(r)),
    ;
}

pub open spec fn attr_result(r: Result<FileAttr, Failure>) -> FsOutcome {
    match r {
        Ok(a) => FsOutcome::Attr(a),
        Err(e) => FsOutcome::Failed(e),
    }
}

pub open spec fn unit_result(r: Result<(), Failure>) -> FsOutcome {
    match r {
        Ok(_) => FsOutcome::Done,
        Err(e) => FsOutcome::Failed(e),
    }
}

/// What an operation does to a tree, and returns, at the time `now`.
pub open spec fn tree_step(t: Tree, op: FsOp, now: i64) -> (Tree, FsOutcome) {
    match op {
        FsOp::Stat(p) => (t, attr_result(tree::stat(t, p))),
        FsOp::Read { path, offset, size } => (
            t,
            match tree::read(t, path, offset as int, size as int) {
                Ok(d) => FsOutcome::Data(d),
                Err(e) => FsOutcome::Failed(e),
            },
        ),
        FsOp::Write { path, offset, data } => {
            let (u, r) = tree::write(t, path, offset as int, data, now);
            (
                u,
                match r {
                    Ok(n) => FsOutcome::Size(n),
                    Err(e) => FsOutcome::Failed(e),
                },
            )
        },
        FsOp::Create { path, mode } => {
            let (u, r) = tree::create(t, path, mode, now);
            (u, attr_result(r))
        },
        FsOp::Mkdir { path, mode } => {
            let (u, r) = tree::mkdir(t, path, mode, now);
            (u, attr_result(r))
        },
        FsOp::Unlink(p) => {
            let (u, r) = tree::unlink(t, p, now);
            (u, unit_result(r))
        },
        FsOp::Rmdir(p) => {
            let (u, r) = tree::rmdir(t, p, now);
            (u, unit_result(r))
        },
        FsOp::Rename { from, to } => {
            let (u, r) = tree::rename(t, from, to, now);
            (u, unit_result(r))
        },
        FsOp::Truncate { path, size } => {
            let (u, r) = tree::truncate(t, path, size as int, now);
            (u, unit_result(r))
        },
        FsOp::Chmod { path, mode } => {
            let (u, r) = tree::chmod(t, path, mode, now);
            (u, unit_result(r))
        },
        FsOp::Fsync(p) => (t, unit_result(tree::fsync(t, p))),
        FsOp::ListDir(p) => (
            t,
            match tree::list_dir(t, p) {
                Ok(c) => FsOutcome::Children(c),
                Err(e) => FsOutcome::Failed(e),
            },
        ),
    }
}

/// Whether an operation only looks, and asks no clock.
pub open spec fn is_query(op: FsOp) -> bool {
    op is Stat || op is Read || op is Fsync || op is ListDir
}

impl<C: Clock> HostFs for MemFs<C> {
    open spec fn sound(&self) -> bool {
        self.wf()
    }

    open spec fn room(&self) -> u64 {
        if self@.next < Ino::MAX {
            (Ino::MAX - self@.next) as u64
        } else {
            0
        }
    }

    open spec fn fits(op: FsOp) -> bool {
        match op {
            FsOp::Write { offset, data, .. } => offset + data.len() <= usize::MAX,
            FsOp::Truncate { size, .. } => size <= usize::MAX,
            _ => true,
        }
    }

    open spec fn may(pre: Self, op: FsOp, post: Self, r: FsOutcome) -> bool {
        &&& post.timer() == pre.timer()
        &&& if is_query(op) {
            post == pre && r == tree_step(pre@, op, 0).1
        } else {
            exists|now: i64| #[trigger]
                pre.timer().shows(now) && (post@, r) == tree_step(pre@, op, now)
        }
    }

    fn stat(&self, path: &HostPath) -> (r: Result<FileAttr, HostError>) {
        self.stat(path)
    }

    fn read(&self, path: &HostPath, offset: u64, size: u32) -> (r: Result<Bytes, HostError>) {
        self.read(path, offset, size)
    }

    fn write(&mut self, path: &HostPath, offset: u64, data: &[u8]) -> (r: Result<u64, HostError>) {
        self.write(path, offset, data)
    }

    fn create(&mut self, path: &HostPath, mode: u16) -> (r: Result<FileAttr, HostError>) {
        self.create(path, mode)
    }

    fn mkdir(&mut self, path: &HostPath, mode: u16) -> (r: Result<FileAttr, HostError>) {
        self.mkdir(path, mode)
    }

    fn unlink(&mut self, path: &HostPath) -> (r: Result<(), HostError>) {
        self.unlink(path)
    }

    fn rmdir(&mut self, path: &HostPath) -> (r: Result<(), HostError>) {
        self.rmdir(path)
    }

    fn rename(&mut self, from: &HostPath, to: &HostPath) -> (r: Result<(), HostError>) {
        self.rename(from, to)
    }

    fn truncate(&mut self, path: &HostPath, size: u64) -> (r: Result<(), HostError>) {
        self.truncate(path, size)
    }

    fn chmod(&mut self, path: &HostPath, mode: u16) -> (r: Result<(), HostError>) {
        self.chmod(path, mode)
    }

    fn fsync(&self, path: &HostPath) -> (r: Result<(), HostError>) {
        self.fsync(path)
    }

    fn list_dir(&self, path: &HostPath) -> (r: Result<Vec<DirChild>, HostError>) {
        self.list_dir(path)
    }
}

} // verus!
