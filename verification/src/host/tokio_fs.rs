//! What a disk-backed filesystem decides: where a path lies on disk, what an
//! I/O error means, and what the metadata of a file say.
//!
//! Attribute numbers come from the disk: there is no second inode table here.

use vstd::prelude::*;

use crate::host::{check_relative, path_failure, Failure, HostError};
use crate::path::{join_path, Comp, HostPath};
use crate::protocol::{FileAttr, FileKind, ROOT_INO};

verus! {

/// A filesystem rooted at a directory on disk.
#[derive(Debug)]
pub struct TokioFs {
    root: HostPath,
}

impl TokioFs {
    /// The directory that the share stands in.
    pub closed spec fn base(&self) -> Seq<Comp> {
        self.root@
    }

    pub fn new(root: HostPath) -> (r: Self)
        ensures
            r.base() == root@,
    {
        TokioFs { root }
    }

    /// Where `path` lies on disk; paths out of the share are refused.
    pub fn resolve(&self, path: &HostPath) -> (r: Result<HostPath, HostError>)
        ensures
            r is Ok <==> path_failure(path@) is None,
            r matches Ok(p) ==> p@ == join_path(self.base(), path@),
            r matches Err(e) ==> Some(e@) == path_failure(path@),
    {
        check_relative(path)?;
        Ok(self.root.join_to(path))
    }
}

/// Whatever `resolve` accepts lies below the root, unless the root is empty.
pub proof fn law_resolved_below_root(root: Seq<Comp>, p: Seq<Comp>)
    requires
        path_failure(p) is None,
    ensures
        crate::path::under(join_path(root, p), root),
        forall|i: int|
            root.len() <= i < join_path(root, p).len() ==> !crate::host::escapes(
                #[trigger] join_path(root, p)[i],
            ),
{
    let j = join_path(root, p);
    if p.len() > 0 {
        assert(!crate::host::escapes(p[0]));
    }
    assert(j.subrange(0, root.len() as int) =~= root);
    assert forall|i: int| root.len() <= i < j.len() implies !crate::host::escapes(
        #[trigger] j[i],
    ) by {
        if root.len() > 0 && p.len() > 0 && p[0] is CurDir {
            assert(j[i] == p[i - root.len() + 1]);
        } else {
            assert(j[i] == p[i - root.len()]);
        }
    }
}

/// The kinds of I/O error that are told apart.
#[derive(Debug, Clone, Copy, PartialEq, Eq, Structural)]
pub enum IoKind {
    NotFound,
    PermissionDenied,
    AlreadyExists,
    InvalidInput,
    InvalidData,
    Other,
}

/// What an I/O error means: by its kind, then by the number of the system.
pub open spec fn io_failure(kind: IoKind, raw: Option<i32>, message: Seq<char>) -> Failure {
    match kind {
        IoKind::NotFound => Failure::NotFound,
        IoKind::PermissionDenied => Failure::PermissionDenied,
        IoKind::AlreadyExists => Failure::AlreadyExists,
        IoKind::InvalidInput => Failure::InvalidName,
        IoKind::InvalidData => Failure::InvalidName,
        IoKind::Other => if raw == Some(20i32) {
            Failure::NotADirectory
        } else if raw == Some(21i32) {
            Failure::IsADirectory
        } else if raw == Some(39i32) || raw == Some(66i32) {
            Failure::NotEmpty
        } else if raw == Some(28i32) {
            Failure::NoSpace
        } else {
            Failure::Io(message)
        },
    }
}

/// The failure that an I/O error stands for.
pub fn map_io(kind: IoKind, raw: Option<i32>, message: String) -> (r: HostError)
    ensures
        r@ == io_failure(kind, raw, message@),
{
    match kind {
        IoKind::NotFound => HostError::NotFound,
        IoKind::PermissionDenied => HostError::PermissionDenied,
        IoKind::AlreadyExists => HostError::AlreadyExists,
        IoKind::InvalidInput | IoKind::InvalidData => HostError::InvalidName,
        IoKind::Other => match raw {
            Some(20) => HostError::NotADirectory,
            Some(21) => HostError::IsADirectory,
            Some(39) => HostError::NotEmpty,
            Some(66) => HostError::NotEmpty,
            Some(28) => HostError::NoSpace,
            _ => HostError::Io(message),
        },
    }
}

/// The kind of a directory entry on disk.
pub fn kind_of(is_dir: bool, is_symlink: bool) -> (r: FileKind)
    ensures
        r == (if is_dir {
            FileKind::Directory
        } else if is_symlink {
            FileKind::Symlink
        } else {
            FileKind::Regular
        }),
{
    if is_dir {
        FileKind::Directory
    } else if is_symlink {
        FileKind::Symlink
    } else {
        FileKind::Regular
    }
}

/// The metadata of a file as the disk reports them. Times are nanoseconds
/// since the epoch, where they can be had.
#[derive(Debug, Clone, Copy)]
pub struct DiskMeta {
    pub is_dir: bool,
    pub is_symlink: bool,
    pub ino: u64,
    pub size: u64,
    pub blocks: u64,
    pub mode: u32,
    pub nlink: u64,
    pub uid: u32,
    pub gid: u32,
    pub atime_ns: Option<u128>,
    pub mtime_ns: Option<u128>,
    pub btime_ns: Option<u128>,
}

/// A time, or 0 where it is not known.
pub open spec fn time_or_zero(t: Option<u128>) -> i64 {
    match t {
        Some(n) => n as i64,
        None => 0,
    }
}

fn ns_or_zero(t: Option<u128>) -> (r: i64)
    ensures
        r == time_or_zero(t),
{
    match t {
        Some(n) => n as i64,
        None => 0,
    }
}

/// The attributes that the metadata of a file stand for. The permission bits
/// are the low twelve; a directory without a number is the root.
pub fn disk_attr(m: &DiskMeta) -> (r: FileAttr)
    ensures
        r.ino == (if m.is_dir && m.ino == 0 {
            ROOT_INO
        } else {
            m.ino
        }),
        r.size == m.size,
        r.blocks == m.blocks,
        r.atime_ns == time_or_zero(m.atime_ns),
        r.mtime_ns == time_or_zero(m.mtime_ns),
        r.ctime_ns == time_or_zero(m.btime_ns),
        r.kind == (if m.is_dir {
            FileKind::Directory
        } else if m.is_symlink {
            FileKind::Symlink
        } else {
            FileKind::Regular
        }),
        r.mode == (m.mode & 0o7777) as u16,
        r.nlink == m.nlink as u32,
        r.uid == m.uid,
        r.gid == m.gid,
{
    FileAttr {
        ino: if m.is_dir && m.ino == 0 {
            ROOT_INO
        } else {
            m.ino
        },
        size: m.size,
        blocks: m.blocks,
        atime_ns: ns_or_zero(m.atime_ns),
        mtime_ns: ns_or_zero(m.mtime_ns),
        ctime_ns: ns_or_zero(m.btime_ns),
        kind: kind_of(m.is_dir, m.is_symlink),
        mode: (m.mode & 0o7777) as u16,
        nlink: m.nlink as u32,
        uid: m.uid,
        gid: m.gid,
    }
}

/// What an error of the disk means: its kind where that is told, and otherwise
/// the number of the system, on Linux and on macOS; any other error is passed
/// on in words.
pub proof fn law_disk_errors(raw: Option<i32>, message: Seq<char>, n: i32)
    ensures
        io_failure(IoKind::NotFound, raw, message) is NotFound,
        io_failure(IoKind::PermissionDenied, raw, message) is PermissionDenied,
        io_failure(IoKind::AlreadyExists, raw, message) is AlreadyExists,
        io_failure(IoKind::InvalidInput, raw, message) is InvalidName,
        io_failure(IoKind::InvalidData, raw, message) is InvalidName,
        io_failure(IoKind::Other, Some(20i32), message) is NotADirectory,
        io_failure(IoKind::Other, Some(21i32), message) is IsADirectory,
        io_failure(IoKind::Other, Some(28i32), message) is NoSpace,
        io_failure(IoKind::Other, Some(39i32), message) is NotEmpty,
        io_failure(IoKind::Other, Some(66i32), message) is NotEmpty,
        n != 20 && n != 21 && n != 28 && n != 39 && n != 66 ==> io_failure(
            IoKind::Other,
            Some(n),
            message,
        ) == Failure::Io(message),
        io_failure(IoKind::Other, None, message) == Failure::Io(message),
{
}

/// Which paths lead out of a share: those with a root or a `..` in them. A NUL
/// in a name is refused before that.
pub proof fn law_refused_paths(p: Seq<Comp>, i: int)
    ensures
        0 <= i < p.len() && (p[i] matches Comp::Normal(s) && s.contains('\0')) ==> path_failure(p)
            == Some(Failure::InvalidName),
        0 <= i < p.len() && (p[i] is ParentDir || p[i] is RootDir) ==> path_failure(p) is Some,
        (forall|j: int|
            0 <= j < p.len() ==> ((#[trigger] p[j]) is CurDir || (p[j] matches Comp::Normal(s)
                && !s.contains('\0')))) ==> path_failure(p) is None,
        (forall|j: int|
            0 <= j < p.len() ==> ((#[trigger] p[j]) matches Comp::Normal(s) ==> !s.contains('\0')))
            && path_failure(p) is Some ==> path_failure(p) == Some(Failure::PathEscape),
{
    if 0 <= i < p.len() {
        assert(crate::host::has_nul(p[i]) || !crate::host::has_nul(p[i]));
        assert(crate::host::escapes(p[i]) || !crate::host::escapes(p[i]));
    }
}

/// What the attributes of a file on the disk tell: its own numbers and times,
/// 0 for a time that is not known, the last twelve bits of its mode; a link is
/// told as one only where it is no directory.
pub proof fn law_disk_attributes(m: DiskMeta, r: FileAttr)
    requires
        call_ensures(disk_attr, (&m,), r),
    ensures
        m.ino != 0 ==> r.ino == m.ino,
        m.ino == 0 && m.is_dir ==> r.ino == 1,
        r.size == m.size && r.blocks == m.blocks && r.uid == m.uid && r.gid == m.gid,
        r.mode == m.mode % 4096,
        m.nlink <= u32::MAX ==> r.nlink == m.nlink,
        m.is_dir ==> r.kind is Directory,
        !m.is_dir && m.is_symlink ==> r.kind is Symlink,
        !m.is_dir && !m.is_symlink ==> r.kind is Regular,
        m.atime_ns is None ==> r.atime_ns == 0,
        m.mtime_ns is None ==> r.mtime_ns == 0,
        m.btime_ns is None ==> r.ctime_ns == 0,
        m.atime_ns matches Some(t) ==> t <= i64::MAX ==> r.atime_ns == t,
        m.mtime_ns matches Some(t) ==> t <= i64::MAX ==> r.mtime_ns == t,
        m.btime_ns matches Some(t) ==> t <= i64::MAX ==> r.ctime_ns == t,
{
    let mode: u32 = m.mode;
    assert(mode & 0o7777 == mode % 4096) by (bit_vector);
    assert((mode & 0o7777) < 4096) by (bit_vector);
}

} // verus!
