//! Requests and responses on the sprite side: correlation by id, and what a
//! response means for the request that it answers.

use std::collections::BTreeMap;

use bytes::Bytes;
use vstd::prelude::*;

use crate::payload::{bytes_contents, bytes_slice};
use crate::protocol::errno::EIO;
use crate::protocol::{
    entry_plus_views, entry_views, sha256_of, Answer, DirEntry, DirEntryPlus, EntryPlusView,
    EntryView, Errno, FileAttr, Frame, Push, Request, RequestId, Response, StatFs,
};

verus! {

/// Why a request failed.
#[derive(Debug, Clone, Copy, PartialEq, Eq, Structural)]
pub enum ClientError {
    /// The transport closed before a response arrived.
    Disconnected,
    /// The host reported an error.
    Errno(Errno),
    /// The response has the wrong shape for the request.
    Protocol,
}

impl ClientError {
    /// The errno that the kernel is told.
    pub fn errno(&self) -> (r: Errno)
        ensures
            r == (match *self {
                ClientError::Disconnected => EIO,
                ClientError::Errno(n) => n,
                ClientError::Protocol => EIO,
            }),
    {
        match self {
            ClientError::Disconnected => EIO,
            ClientError::Errno(n) => *n,
            ClientError::Protocol => EIO,
        }
    }
}

/// One page of a directory.
#[derive(Debug, PartialEq, Eq)]
pub struct DirPage {
    pub entries: Vec<DirEntry>,
    pub next_offset: Option<u64>,
}

/// One page of a directory with attributes.
#[derive(Debug, PartialEq, Eq)]
pub struct DirPagePlus {
    pub entries: Vec<DirEntryPlus>,
    pub next_offset: Option<u64>,
}

/// The failure that an answer of another shape stands for.
pub open spec fn failure(a: Answer) -> ClientError {
    match a {
        Answer::Error(n) => ClientError::Errno(n),
        _ => ClientError::Protocol,
    }
}

fn failure_of(r: &Response) -> (e: ClientError)
    ensures
        e == failure(r.answer()),
{
    match r {
        Response::Error { errno } => ClientError::Errno(*errno),
        _ => ClientError::Protocol,
    }
}

/// The attributes that an answer carries.
pub open spec fn attr_result(a: Answer) -> Result<FileAttr, ClientError> {
    match a {
        Answer::Attr(x) => Ok(x),
        Answer::Entry(x) => Ok(x),
        _ => Err(failure(a)),
    }
}

pub fn unwrap_attr(r: Response) -> (x: Result<FileAttr, ClientError>)
    ensures
        x == attr_result(r.answer()),
{
    match r {
        Response::Attr(a) => Ok(a),
        Response::Entry { attr } => Ok(attr),
        _ => Err(failure_of(&r)),
    }
}

/// Success that carries nothing.
pub open spec fn done_result(a: Answer) -> Result<(), ClientError> {
    match a {
        Answer::Done => Ok(()),
        _ => Err(failure(a)),
    }
}

pub fn unwrap_ok(r: Response) -> (x: Result<(), ClientError>)
    ensures
        x == done_result(r.answer()),
{
    match r {
        Response::Done => Ok(()),
        _ => Err(failure_of(&r)),
    }
}

/// The page that an answer carries.
pub open spec fn page_result(a: Answer) -> Result<(Seq<EntryView>, Option<u64>), ClientError> {
    match a {
        Answer::DirPage(entries, next) => Ok((entries, next)),
        _ => Err(failure(a)),
    }
}

pub fn unwrap_page(r: Response) -> (x: Result<DirPage, ClientError>)
    ensures
        match x {
            Ok(p) => page_result(r.answer()) == Ok::<_, ClientError>(
                (entry_views(p.entries@), p.next_offset),
            ),
            Err(e) => page_result(r.answer()) == Err::<(Seq<EntryView>, Option<u64>), _>(e),
        },
{
    match r {
        Response::DirPage { entries, next_offset } => Ok(DirPage { entries, next_offset }),
        _ => Err(failure_of(&r)),
    }
}

/// The page with attributes that an answer carries.
pub open spec fn page_plus_result(a: Answer) -> Result<
    (Seq<EntryPlusView>, Option<u64>),
    ClientError,
> {
    match a {
        Answer::DirPagePlus(entries, next) => Ok((entries, next)),
        _ => Err(failure(a)),
    }
}

pub fn unwrap_page_plus(r: Response) -> (x: Result<DirPagePlus, ClientError>)
    ensures
        match x {
            Ok(p) => page_plus_result(r.answer()) == Ok::<_, ClientError>(
                (entry_plus_views(p.entries@), p.next_offset),
            ),
            Err(e) => page_plus_result(r.answer()) == Err::<
                (Seq<EntryPlusView>, Option<u64>),
                _,
            >(e),
        },
{
    match r {
        Response::DirPagePlus { entries, next_offset } => Ok(DirPagePlus { entries, next_offset }),
        _ => Err(failure_of(&r)),
    }
}

/// The handle that an answer carries.
pub open spec fn handle_result(a: Answer) -> Result<u64, ClientError> {
    match a {
        Answer::OpenOk(h) => Ok(h),
        _ => Err(failure(a)),
    }
}

pub fn unwrap_handle(r: Response) -> (x: Result<u64, ClientError>)
    ensures
        x == handle_result(r.answer()),
{
    match r {
        Response::OpenOk { handle } => Ok(handle),
        _ => Err(failure_of(&r)),
    }
}

/// The content that an answer carries, with its generation. Content whose
/// digest does not match is an I/O error.
pub open spec fn data_result(a: Answer) -> Result<(Seq<u8>, u64), ClientError> {
    match a {
        Answer::Bytes { data, hash, generation } => if hash == sha256_of(data) {
            Ok((data, generation))
        } else {
            Err(ClientError::Errno(EIO))
        },
        _ => Err(failure(a)),
    }
}

/// Content that came with a digest, given whether the digest is that of the
/// content.
pub fn verified(intact: bool, data: Bytes, generation: u64) -> (x: Result<
    (Bytes, u64),
    ClientError,
>)
    ensures
        x == (if intact {
            Ok((data, generation))
        } else {
            Err(ClientError::Errno(EIO))
        }),
{
    if intact {
        Ok((data, generation))
    } else {
        Err(ClientError::Errno(EIO))
    }
}

pub fn unwrap_data(r: Response) -> (x: Result<(Bytes, u64), ClientError>)
    ensures
        match x {
            Ok((b, g)) => data_result(r.answer()) == Ok::<_, ClientError>((bytes_contents(b), g)),
            Err(e) => data_result(r.answer()) == Err::<(Seq<u8>, u64), _>(e),
        },
{
    match r {
        Response::Bytes { data, hash, generation } => {
            let intact: bool = hash.verify(bytes_slice(&data));
            verified(intact, data, generation)
        },
        _ => Err(failure_of(&r)),
    }
}

/// The number of bytes that an answer says were written.
pub open spec fn written_result(a: Answer) -> Result<u32, ClientError> {
    match a {
        Answer::Written(n) => Ok(n),
        _ => Err(failure(a)),
    }
}

pub fn unwrap_written(r: Response) -> (x: Result<u32, ClientError>)
    ensures
        x == written_result(r.answer()),
{
    match r {
        Response::Written { bytes } => Ok(bytes),
        _ => Err(failure_of(&r)),
    }
}

/// The filesystem numbers that an answer carries.
pub open spec fn statfs_result(a: Answer) -> Result<StatFs, ClientError> {
    match a {
        Answer::StatFs(s) => Ok(s),
        _ => Err(failure(a)),
    }
}

pub fn unwrap_statfs(r: Response) -> (x: Result<StatFs, ClientError>)
    ensures
        x == statfs_result(r.answer()),
{
    match r {
        Response::StatFs(s) => Ok(s),
        _ => Err(failure_of(&r)),
    }
}

/// The link target that an answer carries.
pub open spec fn link_result(a: Answer) -> Result<Seq<char>, ClientError> {
    match a {
        Answer::LinkTarget(t) => Ok(t),
        _ => Err(failure(a)),
    }
}

pub fn unwrap_link(r: Response) -> (x: Result<String, ClientError>)
    ensures
        match x {
            Ok(t) => link_result(r.answer()) == Ok::<_, ClientError>(t@),
            Err(e) => link_result(r.answer()) == Err::<Seq<char>, _>(e),
        },
{
    match r {
        Response::LinkTarget { target } => Ok(target),
        _ => Err(failure_of(&r)),
    }
}

/// Content is served only where its digest was verified: what comes out has
/// the digest that came with it, and a payload whose digest differs from the
/// one sent is answered with `EIO`.
pub proof fn law_content_verified(data: Seq<u8>, hash: Seq<u8>, generation: u64)
    ensures
        ({
            let a = Answer::Bytes { data, hash, generation };
            &&& data_result(a) is Ok ==> hash == sha256_of(data) && data_result(a) == Ok::<
                _,
                ClientError,
            >((data, generation))
            &&& hash != sha256_of(data) ==> data_result(a) == Err::<(Seq<u8>, u64), _>(
                ClientError::Errno(EIO),
            )
        }),
{
}

/// What comes of a frame, or of the end of the stream.
#[derive(Debug)]
pub enum Delivery {
    /// A response for the request that waits under this id.
    Response { id: RequestId, body: Response },
    /// A message of the host.
    Push(Push),
    /// Nothing waits for it.
    Ignored,
    /// The transport is gone: these requests failed with `Disconnected`.
    Closed { failed: Vec<RequestId> },
}

/// Whether a frame, or the end of the stream, is delivered as `d` where these
/// requests wait, and leaves those waiting.
pub open spec fn delivers(
    waiting: Set<RequestId>,
    closed: bool,
    frame: Option<Frame>,
    after: Set<RequestId>,
    then_closed: bool,
    d: Delivery,
) -> bool {
    match frame {
        Some(Frame::Response { id, body }) => {
            &&& after == waiting.remove(id)
            &&& then_closed == closed
            &&& d == (if waiting.contains(id) {
                Delivery::Response { id, body }
            } else {
                Delivery::Ignored
            })
        },
        Some(Frame::Push(push)) => after == waiting && then_closed == closed && d
            == Delivery::Push(push),
        Some(Frame::Request { .. }) => after == waiting && then_closed == closed && d
            == Delivery::Ignored,
        None => {
            &&& then_closed
            &&& after == Set::<RequestId>::empty()
            &&& d matches Delivery::Closed { failed } && failed@.to_set() == waiting
                && failed@.no_duplicates()
        },
    }
}

/// Correlates responses with the requests that wait for them.
pub struct CmdClient {
    waiting: BTreeMap<RequestId, ()>,
    next_id: RequestId,
    closed: bool,
}

impl CmdClient {
    /// The ids of the requests that wait.
    pub closed spec fn pending(&self) -> Set<RequestId> {
        self.waiting@.dom()
    }

    /// The id that the next request gets.
    pub closed spec fn next(&self) -> RequestId {
        self.next_id
    }

    /// Whether the transport is gone.
    pub closed spec fn is_closed(&self) -> bool {
        self.closed
    }

    pub fn new() -> (r: Self)
        ensures
            r.pending() == Set::<RequestId>::empty(),
            r.next() == 1,
            !r.is_closed(),
    {
        let r = CmdClient { waiting: BTreeMap::new(), next_id: 1, closed: false };
        assert(r.pending() =~= Set::<RequestId>::empty());
        r
    }

    /// Start a request: the frame to send, under a new id that waits for its
    /// response. Ids wrap around.
    pub fn request(&mut self, body: Request) -> (r: Result<(RequestId, Frame), ClientError>)
        ensures
            old(self).is_closed() ==> *final(self) == *old(self) && r == Err::<
                (RequestId, Frame),
                _,
            >(ClientError::Disconnected),
            !old(self).is_closed() ==> {
                &&& r == Ok::<_, ClientError>(
                    (old(self).next(), Frame::Request { id: old(self).next(), body }),
                )
                &&& final(self).pending() == old(self).pending().insert(old(self).next())
                &&& final(self).next() == old(self).next().wrapping_add(1)
                &&& !final(self).is_closed()
            },
    {
        if self.closed {
            return Err(ClientError::Disconnected);
        }
        let id: RequestId = self.next_id;
        self.next_id = self.next_id.wrapping_add(1);
        self.waiting.insert(id, ());
        assert(self.pending() =~= old(self).pending().insert(id));
        Ok((id, Frame::Request { id, body }))
    }

    /// The frame of a request could not be sent: it waits no more.
    pub fn send_failed(&mut self, id: RequestId) -> (e: ClientError)
        ensures
            e == ClientError::Disconnected,
            final(self).pending() == old(self).pending().remove(id),
            final(self).next() == old(self).next(),
            final(self).is_closed() == old(self).is_closed(),
    {
        self.waiting.remove(&id);
        assert(self.pending() =~= old(self).pending().remove(id));
        ClientError::Disconnected
    }

    /// Take in a frame, or the end of the stream.
    pub fn receive(&mut self, frame: Option<Frame>) -> (d: Delivery)
        ensures
            final(self).next() == old(self).next(),
            delivers(
                old(self).pending(),
                old(self).is_closed(),
                frame,
                final(self).pending(),
                final(self).is_closed(),
                d,
            ),
            match frame {
                Some(Frame::Response { id, body }) => {
                    &&& final(self).pending() == old(self).pending().remove(id)
                    &&& final(self).is_closed() == old(self).is_closed()
                    &&& d == (if old(self).pending().contains(id) {
                        Delivery::Response { id, body }
                    } else {
                        Delivery::Ignored
                    })
                },
                Some(Frame::Push(push)) => *final(self) == *old(self) && d == Delivery::Push(push),
                Some(Frame::Request { .. }) => *final(self) == *old(self) && d
                    == Delivery::Ignored,
                None => {
                    &&& final(self).is_closed()
                    &&& final(self).pending() == Set::<RequestId>::empty()
                    &&& d matches Delivery::Closed { failed } && failed@.to_set()
                        == old(self).pending() && failed@.no_duplicates()
                },
            },
    {
        match frame {
            Some(Frame::Response { id, body }) => {
                let known = self.waiting.remove(&id);
                assert(self.pending() =~= old(self).pending().remove(id));
                match known {
                    Some(_) => Delivery::Response { id, body },
                    None => Delivery::Ignored,
                }
            },
            Some(Frame::Push(push)) => Delivery::Push(push),
            Some(Frame::Request { .. }) => Delivery::Ignored,
            None => {
                self.closed = true;
                let failed: Vec<RequestId> = self.drain();
                Delivery::Closed { failed }
            },
        }
    }

    /// Take out every id that waits.
    fn drain(&mut self) -> (failed: Vec<RequestId>)
        ensures
            failed@.to_set() == old(self).pending(),
            failed@.no_duplicates(),
            final(self).pending() == Set::<RequestId>::empty(),
            final(self).next() == old(self).next(),
            final(self).is_closed() == old(self).is_closed(),
    {
        let mut failed: Vec<RequestId> = Vec::new();
        let ghost all = self.waiting@.dom();
        let keys = self.waiting.keys();
        let ghost ks = vstd::std_specs::iter::IteratorSpec::remaining(&keys).unref();
        for id in it: keys
            invariant
                it.seq().unref() == ks,
                failed@ == ks.take(it.index() as int),
            ensures
                failed@ == ks.take(ks.len() as int),
        {
            failed.push(*id);
        }
        assert(ks.take(ks.len() as int) =~= ks);
        assert(ks.to_set() == all);
        self.waiting.clear();
        assert(self.pending() =~= Set::<RequestId>::empty());
        failed
    }
}

/// What an answer means to the one who asked: an answer of the right shape is
/// what it carries; an error is its number; any other shape is a fault of the
/// protocol.
pub proof fn law_answers_read(a: Answer, attr: FileAttr, n: i32)
    ensures
        attr_result(Answer::Attr(attr)) == Ok::<FileAttr, ClientError>(attr),
        attr_result(Answer::Entry(attr)) == Ok::<FileAttr, ClientError>(attr),
        !(a is Attr) && !(a is Entry) && !(a is Error) ==> attr_result(a) == Err::<
            FileAttr,
            ClientError,
        >(ClientError::Protocol),
        attr_result(Answer::Error(n)) == Err::<FileAttr, ClientError>(ClientError::Errno(n)),
        done_result(Answer::Done) == Ok::<(), ClientError>(()),
        done_result(Answer::Error(n)) == Err::<(), ClientError>(ClientError::Errno(n)),
        !(a is Done) && !(a is Error) ==> done_result(a) == Err::<(), ClientError>(
            ClientError::Protocol,
        ),
        a matches Answer::DirPage(entries, next) ==> page_result(a) == Ok::<_, ClientError>(
            (entries, next),
        ),
        a matches Answer::DirPagePlus(entries, next) ==> page_plus_result(a) == Ok::<
            _,
            ClientError,
        >((entries, next)),
        !(a is DirPage) ==> page_result(a) is Err,
        !(a is DirPagePlus) ==> page_plus_result(a) is Err,
        a matches Answer::OpenOk(h) ==> handle_result(a) == Ok::<u64, ClientError>(h),
        !(a is OpenOk) ==> handle_result(a) is Err,
        a matches Answer::Written(k) ==> written_result(a) == Ok::<u32, ClientError>(k),
        !(a is Written) ==> written_result(a) is Err,
        a matches Answer::StatFs(s) ==> statfs_result(a) == Ok::<StatFs, ClientError>(s),
        !(a is StatFs) ==> statfs_result(a) is Err,
        a matches Answer::LinkTarget(t) ==> link_result(a) == Ok::<Seq<char>, ClientError>(t),
        !(a is LinkTarget) ==> link_result(a) is Err,
        a matches Answer::Bytes { data, hash, generation } ==> data_result(a) == (if hash
            == sha256_of(data) {
            Ok((data, generation))
        } else {
            Err(ClientError::Errno(5))
        }),
        !(a is Bytes) ==> data_result(a) is Err,
        page_result(Answer::Error(n)) == Err::<(Seq<EntryView>, Option<u64>), ClientError>(
            ClientError::Errno(n),
        ),
        handle_result(Answer::Error(n)) == Err::<u64, ClientError>(ClientError::Errno(n)),
        written_result(Answer::Error(n)) == Err::<u32, ClientError>(ClientError::Errno(n)),
        data_result(Answer::Error(n)) == Err::<(Seq<u8>, u64), ClientError>(ClientError::Errno(n)),
{
}

/// An answer is delivered to the request that waits for it, once: what comes
/// under its number again is for no one, and so is what comes under a number
/// that none waits for. Every other request goes on waiting. A message of the
/// host is passed on, and disturbs no request.
pub proof fn law_answer_delivered_once(
    waiting: Set<RequestId>,
    closed: bool,
    id: RequestId,
    body: Response,
    again: Response,
    push: Push,
    mid: Set<RequestId>,
    c1: bool,
    first: Delivery,
    after: Set<RequestId>,
    c2: bool,
    second: Delivery,
    left: Set<RequestId>,
    c3: bool,
    third: Delivery,
)
    requires
        delivers(waiting, closed, Some(Frame::Response { id, body }), mid, c1, first),
        delivers(mid, c1, Some(Frame::Response { id, body: again }), after, c2, second),
        delivers(after, c2, Some(Frame::Push(push)), left, c3, third),
    ensures
        waiting.contains(id) ==> (first matches Delivery::Response { id: to, body: what } && to == id
            && what == body),
        !waiting.contains(id) ==> first is Ignored,
        second is Ignored,
        third matches Delivery::Push(p) && p == push,
        forall|k: RequestId|
            k != id ==> (#[trigger] left.contains(k) <==> waiting.contains(k)),
        !left.contains(id),
        c3 == closed,
{
}

/// When the stream ends every request that waits has failed, each once, and
/// none waits any more.
pub proof fn law_end_fails_all(
    waiting: Set<RequestId>,
    closed: bool,
    after: Set<RequestId>,
    then_closed: bool,
    d: Delivery,
    id: RequestId,
)
    requires
        delivers(waiting, closed, None, after, then_closed, d),
    ensures
        then_closed,
        !after.contains(id),
        d matches Delivery::Closed { failed } && (waiting.contains(id) <==> exists|i: int|
            0 <= i < failed@.len() && #[trigger] failed@[i] == id) && forall|i: int, j: int|
            0 <= i < j < failed@.len() ==> failed@[i] != failed@[j],
{
    let failed = d->failed;
    assert(failed@.to_set().contains(id) <==> failed@.contains(id));
}

} // verus!
