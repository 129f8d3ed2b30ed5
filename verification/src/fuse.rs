//! What the kernel asks of a mounted filesystem, and what it is told, in plain
//! values.

use vstd::prelude::*;

use crate::protocol::{DirEntry, FileAttr, FileKind, Ino, OpenFlags};
use crate::protocol::errno::EIO;
use crate::remote::client::ClientError;

verus! {

/// For how many seconds the kernel may trust an entry.
pub const ENTRY_TTL_SECS: u64 = 1;

/// For how many seconds the kernel may trust attributes.
pub const ATTR_TTL_SECS: u64 = 1;

/// The generation of every inode.
pub const GENERATION: u64 = 1;

/// The bits of the open flags that say how a file is accessed.
pub const O_ACCMODE: i32 = 3;

pub const O_RDONLY: i32 = 0;

pub const O_WRONLY: i32 = 1;

pub const O_RDWR: i32 = 2;

pub const O_TRUNC: i32 = 512;

pub const O_APPEND: i32 = 1024;

/// A time: so many nanoseconds before or after the epoch.
#[derive(Debug, Clone, Copy, PartialEq, Eq, Structural)]
pub struct FuseTime {
    pub before_epoch: bool,
    pub nanos: u64,
}

/// The attributes of a file as the kernel takes them.
#[derive(Debug, Clone, Copy, PartialEq, Eq, Structural)]
pub struct FuseAttr {
    pub ino: Ino,
    pub size: u64,
    pub blocks: u64,
    pub atime: FuseTime,
    pub mtime: FuseTime,
    pub ctime: FuseTime,
    pub crtime: FuseTime,
    pub kind: FileKind,
    pub perm: u16,
    pub nlink: u32,
    pub uid: u32,
    pub gid: u32,
    pub rdev: u32,
    pub blksize: u32,
    pub flags: u32,
}

/// The time of a number of nanoseconds since the epoch.
pub open spec fn time_of(ns: i64) -> FuseTime {
    if ns >= 0 {
        FuseTime { before_epoch: false, nanos: ns as u64 }
    } else {
        FuseTime { before_epoch: true, nanos: (-ns) as u64 }
    }
}

/// The time of a number of nanoseconds since the epoch.
pub fn to_time(ns: i64) -> (r: FuseTime)
    ensures
        r == time_of(ns),
{
    if ns >= 0 {
        FuseTime { before_epoch: false, nanos: ns as u64 }
    } else {
        FuseTime { before_epoch: true, nanos: (-(ns + 1)) as u64 + 1 }
    }
}

/// The attributes of a file as the kernel takes them.
pub open spec fn fuse_attr(a: FileAttr) -> FuseAttr {
    FuseAttr {
        ino: a.ino,
        size: a.size,
        blocks: a.blocks,
        atime: time_of(a.atime_ns),
        mtime: time_of(a.mtime_ns),
        ctime: time_of(a.ctime_ns),
        crtime: time_of(a.ctime_ns),
        kind: a.kind,
        perm: a.mode,
        nlink: a.nlink,
        uid: a.uid,
        gid: a.gid,
        rdev: 0,
        blksize: 4096,
        flags: 0,
    }
}

/// The attributes of a file as the kernel takes them.
pub fn to_fuse_attr(a: &FileAttr) -> (r: FuseAttr)
    ensures
        r == fuse_attr(*a),
{
    FuseAttr {
        ino: a.ino,
        size: a.size,
        blocks: a.blocks,
        atime: to_time(a.atime_ns),
        mtime: to_time(a.mtime_ns),
        ctime: to_time(a.ctime_ns),
        crtime: to_time(a.ctime_ns),
        kind: a.kind,
        perm: a.mode,
        nlink: a.nlink,
        uid: a.uid,
        gid: a.gid,
        rdev: 0,
        blksize: 4096,
        flags: 0,
    }
}

/// The errno with which a request is answered that failed.
pub fn errno_for(err: &ClientError) -> (r: i32)
    ensures
        r == (match err {
            ClientError::Disconnected => EIO,
            ClientError::Errno(n) => *n,
            ClientError::Protocol => EIO,
        }),
{
    err.errno()
}

/// What the flags of `open` ask for.
pub fn open_flags_from(flags: i32) -> (r: OpenFlags)
    ensures
        r.read == (flags & O_ACCMODE == O_RDONLY || flags & O_ACCMODE == O_RDWR),
        r.write == (flags & O_ACCMODE == O_WRONLY || flags & O_ACCMODE == O_RDWR),
        r.append == (flags & O_APPEND != 0),
        r.truncate == (flags & O_TRUNC != 0),
{
    let mode: i32 = flags & O_ACCMODE;
    OpenFlags {
        read: mode == O_RDONLY || mode == O_RDWR,
        write: mode == O_WRONLY || mode == O_RDWR,
        append: flags & O_APPEND != 0,
        truncate: flags & O_TRUNC != 0,
    }
}

/// The permission bits of a mode.
pub fn mode_bits(mode: u32) -> (r: u16)
    ensures
        r == mode % 4096,
{
    let bits: u32 = mode & 0o7777;
    assert(bits == mode % 4096) by (bit_vector)
        requires
            bits == mode & 0o7777,
    ;
    bits as u16
}

/// A row of a directory listing, with the offset at which the next one begins.
#[derive(Debug, PartialEq, Eq)]
pub struct DirRow {
    pub entry: DirEntry,
    pub next: i64,
}

/// The rows of a page of a directory that begins at an offset. The kernel's
/// offsets are unsigned numbers that it holds in signed ones.
pub fn dir_rows(entries: Vec<DirEntry>, offset: i64) -> (r: Vec<DirRow>)
    requires
        offset as u64 + entries@.len() <= u64::MAX,
    ensures
        r@.len() == entries@.len(),
        forall|i: int|
            0 <= i < r@.len() ==> (#[trigger] r@[i]).entry@ == entries@[i]@ && r@[i].next as u64
                == offset as u64 + i + 1,
        offset >= 0 ==> forall|i: int|
            0 <= i < r@.len() && offset + i < i64::MAX ==> (#[trigger] r@[i]).next == offset + i
                + 1,
{
    let mut out: Vec<DirRow> = Vec::new();
    let mut i: usize = 0;
    let mut at: u64 = offset as u64;
    assert(offset >= 0 ==> at == offset);
    while i < entries.len()
        invariant
            i <= entries@.len(),
            at == offset as u64 + i,
            offset >= 0 ==> offset as u64 == offset,
            offset as u64 + entries@.len() <= u64::MAX,
            out@.len() == i,
            forall|j: int|
                0 <= j < i ==> (#[trigger] out@[j]).entry@ == entries@[j]@ && out@[j].next as u64
                    == offset as u64 + j + 1,
            offset >= 0 ==> forall|j: int|
                0 <= j < i && offset + j < i64::MAX ==> (#[trigger] out@[j]).next == offset + j + 1,
        decreases entries@.len() - i,
    {
        at += 1;
        let next: i64 = at as i64;
        assert(next as u64 == at) by (bit_vector)
            requires
                next == at as i64,
        ;
        out.push(DirRow { entry: entries[i].clone(), next });
        i += 1;
    }
    out
}

/// Times are told exactly: two that differ are told apart.
pub proof fn law_times_exact(a: i64, b: i64)
    requires
        time_of(a) == time_of(b),
    ensures
        a == b,
{
}

/// A time is told as its distance from the epoch and on which side it lies.
pub proof fn law_times(ns: i64)
    ensures
        ns >= 0 ==> !time_of(ns).before_epoch && time_of(ns).nanos == ns,
        ns < 0 ==> time_of(ns).before_epoch && time_of(ns).nanos == -ns,
{
}

/// The kernel is told the attributes as they are: number, size, blocks, times,
/// kind, permissions, links and owner, with the time of the last change as
/// that of the creation, and blocks of 4096 bytes to read and write.
pub proof fn law_attributes_told(a: FileAttr)
    ensures
        ({
            let f = fuse_attr(a);
            &&& f.ino == a.ino
            &&& f.size == a.size
            &&& f.blocks == a.blocks
            &&& f.atime == time_of(a.atime_ns)
            &&& f.mtime == time_of(a.mtime_ns)
            &&& f.ctime == time_of(a.ctime_ns)
            &&& f.crtime == time_of(a.ctime_ns)
            &&& f.kind == a.kind
            &&& f.perm == a.mode
            &&& f.nlink == a.nlink
            &&& f.uid == a.uid
            &&& f.gid == a.gid
            &&& f.rdev == 0
            &&& f.blksize == 4096
            &&& f.flags == 0
        }),
{
}

/// The bits of the flags are those of Linux, and the kernel may trust what it
/// is told for a second.
pub proof fn law_kernel_numbers()
    ensures
        O_ACCMODE == 3,
        O_RDONLY == 0,
        O_WRONLY == 1,
        O_RDWR == 2,
        O_TRUNC == 0o1000,
        O_APPEND == 0o2000,
        ENTRY_TTL_SECS == 1,
        ATTR_TTL_SECS == 1,
        GENERATION == 1,
{
}

/// What `open` is told of its flags: the last two bits tell whether a file is
/// read, written or both, and two more bits whether it is appended to and
/// whether it is emptied first.
pub proof fn law_open_flags(flags: i32, r: OpenFlags)
    requires
        flags >= 0,
        call_ensures(open_flags_from, (flags,), r),
    ensures
        flags % 4 == 0 ==> r.read && !r.write,
        flags % 4 == 1 ==> !r.read && r.write,
        flags % 4 == 2 ==> r.read && r.write,
        flags % 4 == 3 ==> !r.read && !r.write,
        r.truncate <==> flags % 1024 >= 512,
        r.append <==> flags % 2048 >= 1024,
{
    assert(flags & 3 == flags % 4) by (bit_vector)
        requires
            flags >= 0,
    ;
    assert((flags & 512 != 0) == (flags % 1024 >= 512)) by (bit_vector)
        requires
            flags >= 0,
    ;
    assert((flags & 1024 != 0) == (flags % 2048 >= 1024)) by (bit_vector)
        requires
            flags >= 0,
    ;
}

/// A listing that is asked for again at the offset of a row goes on with the
/// row after it: the rows of what is left of a page are the rest of its rows.
pub proof fn law_rows_go_on(
    page: Vec<DirEntry>,
    rest: Vec<DirEntry>,
    offset: i64,
    k: int,
    rows: Vec<DirRow>,
    after: Vec<DirRow>,
    i: int,
)
    requires
        offset >= 0,
        offset + page@.len() < i64::MAX,
        0 <= k < page@.len(),
        rest@.len() == page@.len() - k - 1,
        forall|j: int| 0 <= j < rest@.len() ==> (#[trigger] rest@[j])@ == page@[k + 1 + j]@,
        call_ensures(dir_rows, (page, offset), rows),
        call_ensures(dir_rows, (rest, rows@[k].next), after),
        0 <= i < rest@.len(),
    ensures
        rows@.len() == page@.len(),
        after@.len() == rest@.len(),
        rows@[k].entry@ == page@[k]@,
        after@[i].entry@ == rows@[k + 1 + i].entry@,
        after@[i].next == rows@[k + 1 + i].next,
        rows@[k].next == offset + k + 1,
{
    assert(rows@[k].next == offset + k + 1);
    assert(rows@[k + 1 + i].entry@ == page@[k + 1 + i]@);
    assert(after@[i].entry@ == rest@[i]@);
}

/// A failure that has a number keeps it; any other is a failure of input and
/// output.
pub proof fn law_failure_numbers(n: i32, r: i32, lost: i32, odd: i32)
    requires
        call_ensures(errno_for, (&ClientError::Errno(n),), r),
        call_ensures(errno_for, (&ClientError::Disconnected,), lost),
        call_ensures(errno_for, (&ClientError::Protocol,), odd),
    ensures
        r == n,
        lost == 5,
        odd == 5,
{
}

} // verus!
