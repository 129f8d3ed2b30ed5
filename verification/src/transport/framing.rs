//! Frames on a byte stream: four bytes of length, the most significant first,
//! then the body.
//!
//! Over the exec connection of a sprite the stream is cut into messages, each
//! with a channel in its first byte: 0 is the daemon's input, 1 its output, 2
//! its error output, 4 the end of input.

use vstd::prelude::*;

use crate::payload::copy_range;
use crate::transport::TransportError;

verus! {

/// A frame's body is at most this long.
pub const MAX_FRAME_BYTES: u32 = 67108864;

/// The four bytes of a number, the most significant first.
pub open spec fn be_bytes(n: int) -> Seq<u8> {
    seq![
        (n / 16777216) as u8,
        (n / 65536 % 256) as u8,
        (n / 256 % 256) as u8,
        (n % 256) as u8,
    ]
}

/// The number that four bytes stand for, the most significant first.
pub open spec fn be_number(b: Seq<u8>) -> int {
    b[0] * 16777216 + b[1] * 65536 + b[2] * 256 + b[3]
}

/// A body as it stands on the stream.
pub open spec fn framed(body: Seq<u8>) -> Seq<u8> {
    be_bytes(body.len() as int) + body
}

fn push_length(out: &mut Vec<u8>, n: u32)
    ensures
        final(out)@ == old(out)@ + be_bytes(n as int),
{
    out.push((n / 16777216) as u8);
    out.push((n / 65536 % 256) as u8);
    out.push((n / 256 % 256) as u8);
    out.push((n % 256) as u8);
    assert(out@ =~= old(out)@ + be_bytes(n as int));
}

/// Put the length before a body. One that is too long is refused.
pub fn frame_body(body: &[u8]) -> (r: Result<Vec<u8>, TransportError>)
    ensures
        match r {
            Ok(v) => body@.len() <= MAX_FRAME_BYTES && v@ == framed(body@),
            Err(e) => body@.len() > MAX_FRAME_BYTES && e == TransportError::Closed,
        },
{
    if body.len() > MAX_FRAME_BYTES as usize {
        return Err(TransportError::Closed);
    }
    let mut out: Vec<u8> = Vec::new();
    push_length(&mut out, body.len() as u32);
    let mut rest: Vec<u8> = copy_range(body, 0, body.len());
    assert(body@.subrange(0, body@.len() as int) =~= body@);
    out.append(&mut rest);
    assert(out@ =~= framed(body@));
    Ok(out)
}

/// A frame as a message to the daemon.
pub fn stdin_message(body: &[u8]) -> (r: Result<Vec<u8>, TransportError>)
    ensures
        match r {
            Ok(v) => body@.len() <= MAX_FRAME_BYTES && v@ == seq![0u8] + framed(body@),
            Err(e) => body@.len() > MAX_FRAME_BYTES && e == TransportError::Closed,
        },
{
    match frame_body(body) {
        Ok(mut frame) => {
            let mut out: Vec<u8> = Vec::new();
            out.push(0);
            out.append(&mut frame);
            assert(out@ =~= seq![0u8] + framed(body@));
            Ok(out)
        },
        Err(e) => Err(e),
    }
}

/// The message that ends the daemon's input.
pub fn eof_message() -> (r: Vec<u8>)
    ensures
        r@ == seq![4u8],
{
    let mut out: Vec<u8> = Vec::new();
    out.push(4);
    assert(out@ =~= seq![4u8]);
    out
}

/// The length that stands before a body, where it is not too long.
pub fn frame_length(prefix: [u8; 4]) -> (r: Option<u32>)
    ensures
        r == (if be_number(prefix@) <= MAX_FRAME_BYTES {
            Some(be_number(prefix@) as u32)
        } else {
            None
        }),
{
    let n: u32 = prefix[0] as u32 * 16777216 + prefix[1] as u32 * 65536 + prefix[2] as u32 * 256
        + prefix[3] as u32;
    assert(n == be_number(prefix@));
    if n <= MAX_FRAME_BYTES {
        Some(n)
    } else {
        None
    }
}

/// What a message of the exec connection carries.
#[derive(Debug, PartialEq, Eq)]
pub enum Channel {
    /// Output of the daemon, which was taken in.
    Output,
    /// Error output of the daemon.
    Errors(Vec<u8>),
    /// Nothing for the stream.
    Other,
}

/// Whether a message of the exec connection is taken in as `r`, with `bytes`
/// before it and `after` behind it: the first byte tells whose it is.
pub open spec fn takes_in(bytes: Seq<u8>, data: Seq<u8>, after: Seq<u8>, r: Channel) -> bool {
    if data.len() > 0 && data[0] == 1 {
        r is Output && after == bytes + data.skip(1)
    } else if data.len() > 0 && data[0] == 2 {
        r matches Channel::Errors(e) && e@ == data.skip(1) && after == bytes
    } else {
        r is Other && after == bytes
    }
}

/// What stands at the front of the stream.
#[derive(Debug, PartialEq, Eq)]
pub enum Taken {
    /// The body of a frame.
    Body(Vec<u8>),
    /// A frame that is not complete yet.
    Partial,
    /// The stream has ended, or holds a frame that is too long.
    End,
}

/// What was received and not taken out yet.
pub struct StreamView {
    pub bytes: Seq<u8>,
    pub closed: bool,
}

/// The receiving end of a stream of frames.
pub struct FrameBuffer {
    bytes: Vec<u8>,
    closed: bool,
}

impl View for FrameBuffer {
    type V = StreamView;

    closed spec fn view(&self) -> StreamView {
        StreamView { bytes: self.bytes@, closed: self.closed }
    }
}

/// Whether a whole frame stands at the front.
pub open spec fn complete(bytes: Seq<u8>) -> bool {
    bytes.len() >= 4 && be_number(bytes.take(4)) <= MAX_FRAME_BYTES && bytes.len() >= 4 + be_number(
        bytes.take(4),
    )
}

/// Whether a frame at the front is too long.
pub open spec fn oversized(bytes: Seq<u8>) -> bool {
    bytes.len() >= 4 && be_number(bytes.take(4)) > MAX_FRAME_BYTES
}

/// The body of the frame at the front.
pub open spec fn front(bytes: Seq<u8>) -> Seq<u8> {
    bytes.subrange(4, 4 + be_number(bytes.take(4)))
}

/// What follows the frame at the front.
pub open spec fn behind(bytes: Seq<u8>) -> Seq<u8> {
    bytes.skip(4 + be_number(bytes.take(4)))
}

impl FrameBuffer {
    pub fn new() -> (r: Self)
        ensures
            r@ == (StreamView { bytes: Seq::empty(), closed: false }),
    {
        FrameBuffer { bytes: Vec::new(), closed: false }
    }

    /// Take in bytes of the stream.
    pub fn extend(&mut self, data: &[u8])
        ensures
            final(self)@ == (StreamView { bytes: old(self)@.bytes + data@, ..old(self)@ }),
    {
        let mut more: Vec<u8> = copy_range(data, 0, data.len());
        assert(data@.subrange(0, data@.len() as int) =~= data@);
        self.bytes.append(&mut more);
    }

    /// Take in a message of the exec connection.
    pub fn on_message(&mut self, data: &[u8]) -> (r: Channel)
        ensures
            takes_in(old(self)@.bytes, data@, final(self)@.bytes, r),
            data@.len() > 0 && data@[0] == 1 ==> r is Output && final(self)@ == (StreamView {
                bytes: old(self)@.bytes + data@.skip(1),
                ..old(self)@
            }),
            data@.len() > 0 && data@[0] == 2 ==> (r matches Channel::Errors(e) && e@ == data@.skip(
                1,
            )) && final(self)@ == old(self)@,
            data@.len() == 0 || (data@[0] != 1 && data@[0] != 2) ==> r is Other && final(self)@
                == old(self)@,
    {
        let n: usize = data.len();
        if n == 0 {
            return Channel::Other;
        }
        assert(data@.subrange(1, n as int) =~= data@.skip(1));
        if data[0] == 1 {
            let mut more: Vec<u8> = copy_range(data, 1, n);
            self.bytes.append(&mut more);
            Channel::Output
        } else if data[0] == 2 {
            Channel::Errors(copy_range(data, 1, n))
        } else {
            Channel::Other
        }
    }

    /// Note that nothing more will come.
    pub fn close(&mut self)
        ensures
            final(self)@ == (StreamView { closed: true, ..old(self)@ }),
    {
        self.closed = true;
    }

    /// Take the frame at the front out, where it is there.
    pub fn take_frame(&mut self) -> (r: Taken)
        ensures
            r is Body <==> complete(old(self)@.bytes),
            r matches Taken::Body(b) ==> b@ == front(old(self)@.bytes) && final(self)@ == (
            StreamView { bytes: behind(old(self)@.bytes), ..old(self)@ }),
            r is End <==> oversized(old(self)@.bytes) || (old(self)@.closed && !complete(
                old(self)@.bytes,
            )),
            !(r is Body) ==> final(self)@ == old(self)@,
    {
        let n: usize = self.bytes.len();
        if n >= 4 {
            let prefix: [u8; 4] = [self.bytes[0], self.bytes[1], self.bytes[2], self.bytes[3]];
            assert(prefix@ =~= self.bytes@.take(4));
            match frame_length(prefix) {
                Some(len) => {
                    if n - 4 >= len as usize {
                        let cut: usize = 4 + len as usize;
                        let body: Vec<u8> = copy_range(&self.bytes, 4, cut);
                        let rest: Vec<u8> = copy_range(&self.bytes, cut, n);
                        assert(self.bytes@.subrange(cut as int, n as int) =~= self.bytes@.skip(
                            cut as int,
                        ));
                        self.bytes = rest;
                        return Taken::Body(body);
                    }
                },
                None => {
                    return Taken::End;
                },
            }
        }
        if self.closed {
            Taken::End
        } else {
            Taken::Partial
        }
    }
}

proof fn lemma_be_round_trip(n: int)
    requires
        0 <= n <= MAX_FRAME_BYTES,
    ensures
        be_number(be_bytes(n)) == n,
{
    let a = n / 16777216;
    let b = n / 65536 % 256;
    let c = n / 256 % 256;
    let d = n % 256;
    assert(n == a * 16777216 + b * 65536 + c * 256 + d);
    assert(0 <= a < 256);
}

/// A frame that was sent is received: what was put on the stream comes out as
/// the same body, and what follows it is left for the next.
pub proof fn law_frame_round_trip(body: Seq<u8>, more: Seq<u8>)
    requires
        body.len() <= MAX_FRAME_BYTES,
    ensures
        complete(framed(body) + more),
        front(framed(body) + more) == body,
        behind(framed(body) + more) == more,
{
    let n = body.len() as int;
    lemma_be_round_trip(n);
    let s = framed(body) + more;
    assert(s.take(4) =~= be_bytes(n));
    assert(front(s) =~= body);
    assert(behind(s) =~= more);
}

/// A stream of several frames.
pub open spec fn stream_of(bodies: Seq<Seq<u8>>) -> Seq<u8>
    decreases bodies.len(),
{
    if bodies.len() == 0 {
        Seq::empty()
    } else {
        framed(bodies[0]) + stream_of(bodies.skip(1))
    }
}

/// The bodies of the whole frames of a stream, in order.
pub open spec fn bodies_of(bytes: Seq<u8>) -> Seq<Seq<u8>>
    decreases bytes.len(),
{
    if complete(bytes) {
        seq![front(bytes)] + bodies_of(behind(bytes))
    } else {
        Seq::empty()
    }
}

/// Frames sent in a row come out in the same order, and nothing else does.
pub proof fn law_frames_in_a_row(bodies: Seq<Seq<u8>>)
    requires
        forall|i: int| 0 <= i < bodies.len() ==> (#[trigger] bodies[i]).len() <= MAX_FRAME_BYTES,
    ensures
        bodies_of(stream_of(bodies)) == bodies,
    decreases bodies.len(),
{
    if bodies.len() == 0 {
        assert(bodies_of(stream_of(bodies)) =~= bodies);
    } else {
        let rest = bodies.skip(1);
        assert forall|i: int| 0 <= i < rest.len() implies (#[trigger] rest[i]).len()
            <= MAX_FRAME_BYTES by {
            assert(rest[i] == bodies[i + 1]);
        }
        law_frames_in_a_row(rest);
        law_frame_round_trip(bodies[0], stream_of(rest));
        assert(bodies =~= seq![bodies[0]] + rest);
    }
}

/// A frame at the front stays there, however the stream goes on: where a
/// message ends within a frame does not show.
pub proof fn law_more_input_keeps_front(bytes: Seq<u8>, more: Seq<u8>)
    requires
        complete(bytes),
    ensures
        complete(bytes + more),
        front(bytes + more) == front(bytes),
        behind(bytes + more) == behind(bytes) + more,
{
    assert((bytes + more).take(4) =~= bytes.take(4));
    assert(front(bytes + more) =~= front(bytes));
    assert(behind(bytes + more) =~= behind(bytes) + more);
}

/// A frame is the length of its body in four bytes, the most significant
/// first, and the body.
pub proof fn law_frame_layout(body: Seq<u8>)
    requires
        body.len() <= 67108864,
    ensures
        framed(body).len() == 4 + body.len(),
        framed(body)[0] * 16777216 + framed(body)[1] * 65536 + framed(body)[2] * 256
            + framed(body)[3] == body.len(),
        forall|i: int| 0 <= i < body.len() ==> #[trigger] framed(body)[4 + i] == body[i],
{
    let n = body.len() as int;
    lemma_be_round_trip(n);
}

/// What stands at the front of a stream: with fewer than four bytes nothing is
/// known; a length above 64 megabytes is too long; any other frame is whole
/// once so many bytes follow, and its body is those.
pub proof fn law_front_of_stream(bytes: Seq<u8>)
    ensures
        bytes.len() < 4 ==> !complete(bytes) && !oversized(bytes),
        bytes.len() >= 4 ==> {
            let n = bytes[0] * 16777216 + bytes[1] * 65536 + bytes[2] * 256 + bytes[3];
            &&& oversized(bytes) <==> n > 67108864
            &&& complete(bytes) <==> n <= 67108864 && bytes.len() >= 4 + n
            &&& complete(bytes) ==> front(bytes) == bytes.subrange(4, 4 + n) && behind(bytes)
                == bytes.subrange(4 + n, bytes.len() as int)
        },
{
    if bytes.len() >= 4 {
        let t = bytes.take(4);
        assert(t[0] == bytes[0] && t[1] == bytes[1] && t[2] == bytes[2] && t[3] == bytes[3]);
        if complete(bytes) {
            let n = be_number(t);
            assert(behind(bytes) =~= bytes.subrange(4 + n, bytes.len() as int));
        }
    }
}

/// The output of the daemon arrives in order, whatever else comes between: its
/// error output is handed over apart from it, and anything else is left out.
pub proof fn law_output_in_order(
    bytes: Seq<u8>,
    a: Seq<u8>,
    b: Seq<u8>,
    errors: Seq<u8>,
    other: Seq<u8>,
    s1: Seq<u8>,
    s2: Seq<u8>,
    s3: Seq<u8>,
    s4: Seq<u8>,
    r1: Channel,
    r2: Channel,
    r3: Channel,
    r4: Channel,
)
    requires
        takes_in(bytes, seq![1u8] + a, s1, r1),
        takes_in(s1, seq![2u8] + errors, s2, r2),
        other.len() == 0 || other[0] == 0 || other[0] > 2,
        takes_in(s2, other, s3, r3),
        takes_in(s3, seq![1u8] + b, s4, r4),
    ensures
        s4 == bytes + a + b,
        r1 is Output && r4 is Output && r3 is Other,
        r2 matches Channel::Errors(e) && e@ == errors,
{
    assert((seq![1u8] + a)[0] == 1);
    assert((seq![1u8] + b)[0] == 1);
    assert((seq![2u8] + errors)[0] == 2);
    assert((seq![1u8] + a).skip(1) =~= a);
    assert((seq![1u8] + b).skip(1) =~= b);
    assert((seq![2u8] + errors).skip(1) =~= errors);
    assert(bytes + a + b =~= (bytes + a) + b);
}

} // verus!
