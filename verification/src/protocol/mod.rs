//! Wire protocol of the virtual filesystem: plain data, no I/O.
//!
//! - Inode numbers are assigned by the host and stable for the lifetime of a
//!   file. The host is the source of truth.
//! - Times are nanoseconds since the Unix epoch.
//! - Byte payloads are `bytes::Bytes`.
//! - Errors are POSIX errno values.

use bytes::Bytes;
use vstd::prelude::*;

use crate::payload::{bytes_contents, bytes_slice};

pub mod errno;

verus! {

pub type Ino = u64;

pub type RequestId = u64;

/// Errno passed back to the kernel through FUSE.
pub type Errno = i32;

pub const ROOT_INO: Ino = 1;

#[derive(Debug, Clone, Copy, PartialEq, Eq, Structural)]
pub enum FileKind {
    Regular,
    Directory,
    Symlink,
}

#[derive(Debug, Clone, Copy, PartialEq, Eq, Structural)]
pub struct FileAttr {
    pub ino: Ino,
    pub size: u64,
    pub blocks: u64,
    pub atime_ns: i64,
    pub mtime_ns: i64,
    pub ctime_ns: i64,
    pub kind: FileKind,
    /// Permission bits; the type is `kind`.
    pub mode: u16,
    pub nlink: u32,
    pub uid: u32,
    pub gid: u32,
}

#[derive(Debug, PartialEq, Eq)]
pub struct DirEntry {
    pub ino: Ino,
    pub name: String,
    pub kind: FileKind,
}

/// A directory entry with its attributes.
#[derive(Debug, PartialEq, Eq)]
pub struct DirEntryPlus {
    pub name: String,
    pub kind: FileKind,
    pub attr: FileAttr,
}

/// What a directory entry says.
pub struct EntryView {
    pub ino: Ino,
    pub name: Seq<char>,
    pub kind: FileKind,
}

/// What a directory entry with attributes says.
pub struct EntryPlusView {
    pub name: Seq<char>,
    pub kind: FileKind,
    pub attr: FileAttr,
}

impl View for DirEntry {
    type V = EntryView;

    open spec fn view(&self) -> EntryView {
        EntryView { ino: self.ino, name: self.name@, kind: self.kind }
    }
}

impl View for DirEntryPlus {
    type V = EntryPlusView;

    open spec fn view(&self) -> EntryPlusView {
        EntryPlusView { name: self.name@, kind: self.kind, attr: self.attr }
    }
}

/// The views of a sequence of directory entries.
pub open spec fn entry_views(v: Seq<DirEntry>) -> Seq<EntryView> {
    Seq::new(v.len(), |i: int| v[i]@)
}

/// The views of a sequence of directory entries with attributes.
pub open spec fn entry_plus_views(v: Seq<DirEntryPlus>) -> Seq<EntryPlusView> {
    Seq::new(v.len(), |i: int| v[i]@)
}

impl Clone for DirEntry {
    fn clone(&self) -> (r: Self)
        ensures
            r@ == self@,
    {
        DirEntry { ino: self.ino, name: self.name.clone(), kind: self.kind }
    }
}

impl Clone for DirEntryPlus {
    fn clone(&self) -> (r: Self)
        ensures
            r@ == self@,
    {
        DirEntryPlus { name: self.name.clone(), kind: self.kind, attr: self.attr }
    }
}

/// The open flags that are honored.
#[derive(Debug, Clone, Copy, PartialEq, Eq, Structural)]
pub struct OpenFlags {
    pub read: bool,
    pub write: bool,
    pub append: bool,
    pub truncate: bool,
}

/// Client to server.
///
/// `offset` of the two directory requests is the cookie that came with the
/// previous page; 0 asks for the first page.
#[derive(Debug, PartialEq, Eq)]
pub enum Request {
    Lookup { parent: Ino, name: String },
    GetAttr { ino: Ino },
    ReadDir { ino: Ino, offset: u64 },
    /// Like `ReadDir`, with the attributes of every entry.
    ReadDirPlus { ino: Ino, offset: u64 },
    Open { ino: Ino, flags: OpenFlags },
    Release { ino: Ino, handle: u64 },
    Read { ino: Ino, handle: u64, offset: u64, size: u32 },
    Write { ino: Ino, handle: u64, offset: u64, data: Bytes },
    Create { parent: Ino, name: String, mode: u16, flags: OpenFlags },
    Mkdir { parent: Ino, name: String, mode: u16 },
    Unlink { parent: Ino, name: String },
    Rmdir { parent: Ino, name: String },
    Rename { old_parent: Ino, old_name: String, new_parent: Ino, new_name: String },
    Symlink { parent: Ino, name: String, target: String },
    ReadLink { ino: Ino },
    Truncate { ino: Ino, size: u64 },
    Chmod { ino: Ino, mode: u16 },
    Fsync { ino: Ino, handle: u64, data_only: bool },
    StatFs { ino: Ino },
    /// Several requests in one frame, answered in the same order. The inner
    /// requests are not batches themselves.
    Batch(Vec<Request>),
}

#[derive(Debug, Clone, Copy, PartialEq, Eq, Structural)]
pub struct StatFs {
    pub blocks: u64,
    pub bfree: u64,
    pub bavail: u64,
    pub files: u64,
    pub ffree: u64,
    pub bsize: u32,
    pub namelen: u32,
}

/// The SHA-256 digest of a payload.
#[derive(Debug, Clone, Copy, PartialEq, Eq)]
pub struct Sha256(pub [u8; 32]);

/// The SHA-256 digest of a byte string.
pub uninterp spec fn sha256_of(data: Seq<u8>) -> Seq<u8>;

/// `sha2::Sha256::digest` hashes the whole slice; the digest is a function of
/// the bytes alone.
#[verifier::external_body]
fn digest(data: &[u8]) -> (d: [u8; 32])
    ensures
        d@ == sha256_of(data@),
{
    <sha2::Sha256 as sha2::Digest>::digest(data).into()
}

impl Sha256 {
    /// The digest of `bytes`.
    pub fn of(bytes: &[u8]) -> (r: Self)
        ensures
            r.0@ == sha256_of(bytes@),
    {
        Sha256(digest(bytes))
    }

    /// Whether two digests are the same.
    pub fn same(&self, other: &Sha256) -> (r: bool)
        ensures
            r == (self.0@ == other.0@),
    {
        let mut i: usize = 0;
        while i < 32
            invariant
                i <= 32,
                forall|j: int| 0 <= j < i ==> self.0@[j] == other.0@[j],
            decreases 32 - i,
        {
            if self.0[i] != other.0[i] {
                return false;
            }
            i += 1;
        }
        assert(self.0@ =~= other.0@);
        true
    }

    /// Whether this is the digest of `bytes`.
    pub fn verify(&self, bytes: &[u8]) -> (r: bool)
        ensures
            r == (self.0@ == sha256_of(bytes@)),
    {
        self.same(&Sha256::of(bytes))
    }
}

/// Server to client, paired with a request by its id.
#[derive(Debug, PartialEq, Eq)]
pub enum Response {
    Attr(FileAttr),
    Entry { attr: FileAttr },
    DirPage { entries: Vec<DirEntry>, next_offset: Option<u64> },
    DirPagePlus { entries: Vec<DirEntryPlus>, next_offset: Option<u64> },
    OpenOk { handle: u64 },
    /// File content with its digest. The receiver verifies before serving; a
    /// mismatch surfaces as `EIO`. `generation` is the inode's counter, which
    /// the host advances on every change of the content.
    Bytes { data: Bytes, hash: Sha256, generation: u64 },
    Written { bytes: u32 },
    StatFs(StatFs),
    LinkTarget { target: String },
    /// The request was carried out; there is nothing to return.
    Done,
    Error { errno: Errno },
    /// One response per inner request, in order.
    Batch(Vec<Response>),
}

/// What a response says.
pub enum Answer {
    Attr(FileAttr),
    Entry(FileAttr),
    DirPage(Seq<EntryView>, Option<u64>),
    DirPagePlus(Seq<EntryPlusView>, Option<u64>),
    OpenOk(u64),
    Bytes { data: Seq<u8>, hash: Seq<u8>, generation: u64 },
    Written(u32),
    StatFs(StatFs),
    LinkTarget(Seq<char>),
    Done,
    Error(Errno),
    Batch(Seq<Answer>),
}

impl Response {
    /// What this response says.
    pub open spec fn answer(self) -> Answer
        decreases self,
    {
        match self {
            Response::Attr(attr) => Answer::Attr(attr),
            Response::Entry { attr } => Answer::Entry(attr),
            Response::DirPage { entries, next_offset } => Answer::DirPage(
                entry_views(entries@),
                next_offset,
            ),
            Response::DirPagePlus { entries, next_offset } => Answer::DirPagePlus(
                entry_plus_views(entries@),
                next_offset,
            ),
            Response::OpenOk { handle } => Answer::OpenOk(handle),
            Response::Bytes { data, hash, generation } => Answer::Bytes {
                data: bytes_contents(data),
                hash: hash.0@,
                generation,
            },
            Response::Written { bytes } => Answer::Written(bytes),
            Response::StatFs(s) => Answer::StatFs(s),
            Response::LinkTarget { target } => Answer::LinkTarget(target@),
            Response::Done => Answer::Done,
            Response::Error { errno } => Answer::Error(errno),
            Response::Batch(items) => Answer::Batch(
                Seq::new(
                    items@.len(),
                    |i: int|
                        if 0 <= i < items@.len() {
                            items@[i].answer()
                        } else {
                            Answer::Done
                        },
                ),
            ),
        }
    }

    /// A `Bytes` response with the digest of `data`.
    pub fn bytes(data: Bytes, generation: u64) -> (r: Self)
        ensures
            r.answer() == data_answer(bytes_contents(data), generation),
    {
        let hash = Sha256::of(bytes_slice(&data));
        Response::Bytes { data, hash, generation }
    }
}

/// The answer that carries `data`, stamped with `generation`.
pub open spec fn data_answer(data: Seq<u8>, generation: u64) -> Answer {
    Answer::Bytes { data, hash: sha256_of(data), generation }
}

/// Out-of-band message of the host, which keeps the sprite's caches coherent.
#[derive(Debug, PartialEq, Eq)]
pub enum Push {
    /// Metadata changed: drop cached attributes.
    InvalidateAttr { ino: Ino },
    /// A directory entry changed: drop the cached lookup. `ino` is `None`
    /// where the entry was added.
    InvalidateEntry { parent: Ino, name: String, ino: Option<Ino> },
    /// Contents changed in a byte range; `len == 0` is the whole inode. Fills
    /// with a smaller generation must be discarded.
    InvalidateData { ino: Ino, offset: u64, len: u64, generation: u64 },
    /// Drop the whole metadata cache.
    Resync { epoch: u64 },
    /// One chunk of a file, sent before it was asked for.
    Prefill { ino: Ino, chunk_idx: u64, chunk_size: u32, data: Bytes, generation: u64 },
}

/// What a push says.
pub enum PushView {
    InvalidateAttr { ino: Ino },
    InvalidateEntry { parent: Ino, name: Seq<char>, ino: Option<Ino> },
    InvalidateData { ino: Ino, offset: u64, len: u64, generation: u64 },
    Resync { epoch: u64 },
    Prefill { ino: Ino, chunk_idx: u64, chunk_size: u32, data: Seq<u8>, generation: u64 },
}

impl View for Push {
    type V = PushView;

    open spec fn view(&self) -> PushView {
        match *self {
            Push::InvalidateAttr { ino } => PushView::InvalidateAttr { ino },
            Push::InvalidateEntry { parent, name, ino } => PushView::InvalidateEntry {
                parent,
                name: name@,
                ino,
            },
            Push::InvalidateData { ino, offset, len, generation } => PushView::InvalidateData {
                ino,
                offset,
                len,
                generation,
            },
            Push::Resync { epoch } => PushView::Resync { epoch },
            Push::Prefill { ino, chunk_idx, chunk_size, data, generation } => PushView::Prefill {
                ino,
                chunk_idx,
                chunk_size,
                data: bytes_contents(data),
                generation,
            },
        }
    }
}

/// The views of a sequence of pushes.
pub open spec fn push_views(v: Seq<Push>) -> Seq<PushView> {
    Seq::new(v.len(), |i: int| v[i]@)
}

/// A frame on the wire.
#[derive(Debug, PartialEq, Eq)]
pub enum Frame {
    Request { id: RequestId, body: Request },
    Response { id: RequestId, body: Response },
    Push(Push),
}

} // verus!
