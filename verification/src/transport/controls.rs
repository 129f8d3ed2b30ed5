//! One direction of an in-memory transport, with faults that can be set: late,
//! lost, held and damaged frames, and a connection that breaks.

use bytes::Bytes;
use vstd::prelude::*;

use crate::payload::{bytes_contents, bytes_from, bytes_slice, copy_range};
use crate::protocol::{Frame, Request, RequestId, Response};

verus! {

/// A byte to damage in the answer to a request.
#[derive(Debug, Clone, Copy, PartialEq, Eq, Structural)]
pub struct Corruption {
    pub request_id: RequestId,
    pub byte_offset: usize,
}

/// What is set for a direction, and how far it has got.
pub struct ControlsView {
    pub latency_ns: u64,
    pub drop_next: usize,
    pub limit: Option<u64>,
    pub disconnected: bool,
    pub paused: bool,
    pub bytes_through: u64,
    pub corruptions: Seq<Corruption>,
    pub seed: u64,
    pub rng_state: u64,
}

/// One direction of a transport.
pub struct Controls {
    latency_ns: u64,
    drop_next: usize,
    limit: Option<u64>,
    disconnected: bool,
    paused: bool,
    bytes_through: u64,
    corruptions: Vec<Corruption>,
    seed: u64,
    rng_state: u64,
}

impl View for Controls {
    type V = ControlsView;

    closed spec fn view(&self) -> ControlsView {
        ControlsView {
            latency_ns: self.latency_ns,
            drop_next: self.drop_next,
            limit: self.limit,
            disconnected: self.disconnected,
            paused: self.paused,
            bytes_through: self.bytes_through,
            corruptions: self.corruptions@,
            seed: self.seed,
            rng_state: self.rng_state,
        }
    }
}

/// A direction without faults.
pub open spec fn quiet() -> ControlsView {
    ControlsView {
        latency_ns: 0,
        drop_next: 0,
        limit: None,
        disconnected: false,
        paused: false,
        bytes_through: 0,
        corruptions: Seq::empty(),
        seed: 0,
        rng_state: 0,
    }
}

/// The next state of the generator: xorshift.
pub open spec fn next_state(seed: u64, state: u64) -> u64 {
    let a = if state == 0 {
        seed.wrapping_add(0x9E3779B97F4A7C15)
    } else {
        state
    };
    let b = a ^ (a >> 12u64);
    let c = b ^ (b << 25u64);
    c ^ (c >> 27u64)
}

/// The number that a state of the generator stands for.
pub open spec fn drawn(state: u64) -> u64 {
    state.wrapping_mul(0x2545F4914F6CDD1D)
}

/// About how many bytes a frame takes.
pub open spec fn frame_size(frame: Frame) -> int {
    match frame {
        Frame::Request { body, .. } => match body {
            Request::Write { data, .. } => 64 + bytes_contents(data).len() as int,
            _ => 64,
        },
        Frame::Response { body, .. } => match body {
            Response::Bytes { data, .. } => 64 + bytes_contents(data).len() as int,
            Response::DirPage { entries, .. } => 32 + entries@.len() as int * 64,
            _ => 32,
        },
        Frame::Push(_) => 32,
    }
}

/// A count of bytes, at most what 64 bits hold.
pub open spec fn capped(n: int) -> u64 {
    if n > u64::MAX {
        u64::MAX
    } else {
        n as u64
    }
}

/// About how many bytes a frame takes.
pub fn approx_frame_size(frame: &Frame) -> (r: u64)
    ensures
        r == capped(frame_size(*frame)),
{
    match frame {
        Frame::Request { body, .. } => match body {
            Request::Write { data, .. } => (bytes_slice(data).len() as u64).saturating_add(64),
            _ => 64,
        },
        Frame::Response { body, .. } => match body {
            Response::Bytes { data, .. } => (bytes_slice(data).len() as u64).saturating_add(64),
            Response::DirPage { entries, .. } => match (entries.len() as u64).checked_mul(64) {
                Some(n) => n.saturating_add(32),
                None => u64::MAX,
            },
            _ => 32,
        },
        Frame::Push(_) => 32,
    }
}

/// The offsets to damage in the answer to a request, in the order set.
pub open spec fn offsets_for(cs: Seq<Corruption>, id: RequestId) -> Seq<usize>
    decreases cs.len(),
{
    if cs.len() == 0 {
        Seq::empty()
    } else if cs.last().request_id == id {
        offsets_for(cs.drop_last(), id).push(cs.last().byte_offset)
    } else {
        offsets_for(cs.drop_last(), id)
    }
}

/// What is to be damaged in the answers to other requests.
pub open spec fn for_others(cs: Seq<Corruption>, id: RequestId) -> Seq<Corruption>
    decreases cs.len(),
{
    if cs.len() == 0 {
        Seq::empty()
    } else if cs.last().request_id == id {
        for_others(cs.drop_last(), id)
    } else {
        for_others(cs.drop_last(), id).push(cs.last())
    }
}

/// Bytes with those at some offsets inverted, one offset after another; those
/// beyond the end are left out.
pub open spec fn flipped(data: Seq<u8>, offsets: Seq<usize>) -> Seq<u8>
    decreases offsets.len(),
{
    if offsets.len() == 0 {
        data
    } else {
        let before = flipped(data, offsets.drop_last());
        let at = offsets.last() as int;
        if at < before.len() {
            before.update(at, before[at] ^ 0xFF)
        } else {
            before
        }
    }
}

/// Whether `b` is what becomes of the frame `a`: the bytes of an answer are
/// damaged where that was set for its request, the digest stays as it is, and
/// every other frame is not touched.
pub open spec fn damaged(a: Frame, cs: Seq<Corruption>, b: Frame) -> bool {
    match a {
        Frame::Response { id, body: Response::Bytes { data, hash, generation } } => {
            &&& b matches Frame::Response {
                id: id2,
                body: Response::Bytes { data: data2, hash: hash2, generation: generation2 },
            }
            &&& id2 == id
            &&& hash2 == hash
            &&& generation2 == generation
            &&& bytes_contents(data2) == flipped(bytes_contents(data), offsets_for(cs, id))
        },
        _ => b == a,
    }
}

/// The direction after a frame was passed on: what was set for its request is
/// used up.
pub open spec fn after_passing(v: ControlsView, frame: Frame) -> ControlsView {
    match frame {
        Frame::Response { id, .. } => ControlsView {
            corruptions: for_others(v.corruptions, id),
            ..v
        },
        _ => v,
    }
}

/// What is decided of a frame.
pub enum Verdict {
    Closed,
    Held,
    Dropped,
    Tossed(u64),
    Forwarded,
}

/// What is decided of a frame of a given size, and what is counted: a broken
/// connection carries nothing, a paused one holds the frame; the bytes are
/// counted and may break it; then come the frames to drop; and where frames
/// are lost at random, a number is drawn.
pub open spec fn decided(v: ControlsView, size: u64, lossy: bool) -> (Verdict, ControlsView) {
    if v.disconnected {
        (Verdict::Closed, v)
    } else if v.paused {
        (Verdict::Held, v)
    } else {
        let w = ControlsView { bytes_through: capped(v.bytes_through + size), ..v };
        if w.limit is Some && w.bytes_through >= w.limit->0 {
            (Verdict::Closed, ControlsView { disconnected: true, ..w })
        } else if w.drop_next > 0 {
            (Verdict::Dropped, ControlsView { drop_next: (w.drop_next - 1) as usize, ..w })
        } else if lossy {
            let x = next_state(w.seed, w.rng_state);
            (Verdict::Tossed(drawn(x)), ControlsView { rng_state: x, ..w })
        } else {
            (Verdict::Forwarded, w)
        }
    }
}

/// What becomes of a frame.
#[derive(Debug, PartialEq, Eq)]
pub enum Passage {
    /// The connection is broken.
    Closed,
    /// The direction is paused: the frame comes back.
    Held(Frame),
    /// The frame is lost.
    Dropped,
    /// Chance decides: the frame comes back, with a random number.
    Tossed { frame: Frame, random: u64 },
    /// The frame passes, after a while.
    Forwarded { frame: Frame, latency_ns: u64 },
}

impl Controls {
    /// A direction without faults.
    pub fn new() -> (r: Self)
        ensures
            r@ == quiet(),
    {
        Controls {
            latency_ns: 0,
            drop_next: 0,
            limit: None,
            disconnected: false,
            paused: false,
            bytes_through: 0,
            corruptions: Vec::new(),
            seed: 0,
            rng_state: 0,
        }
    }

    /// Delay every frame.
    pub fn set_latency(&mut self, latency_ns: u64)
        ensures
            final(self)@ == (ControlsView { latency_ns, ..old(self)@ }),
    {
        self.latency_ns = latency_ns;
    }

    /// Drop the next `n` frames.
    pub fn drop_next(&mut self, n: usize)
        ensures
            final(self)@ == (ControlsView { drop_next: n, ..old(self)@ }),
    {
        self.drop_next = n;
    }

    /// Break the connection once `n` bytes have passed.
    pub fn disconnect_after_bytes(&mut self, n: u64)
        ensures
            final(self)@ == (ControlsView { limit: Some(n), ..old(self)@ }),
    {
        self.limit = Some(n);
    }

    /// Break the connection.
    pub fn disconnect_now(&mut self)
        ensures
            final(self)@ == (ControlsView { disconnected: true, ..old(self)@ }),
    {
        self.disconnected = true;
    }

    /// Hold frames back.
    pub fn pause(&mut self)
        ensures
            final(self)@ == (ControlsView { paused: true, ..old(self)@ }),
    {
        self.paused = true;
    }

    /// Let frames pass again.
    pub fn resume(&mut self)
        ensures
            final(self)@ == (ControlsView { paused: false, ..old(self)@ }),
    {
        self.paused = false;
    }

    /// Damage a byte of the answer to a request.
    pub fn set_corruption(&mut self, request_id: RequestId, byte_offset: usize)
        ensures
            final(self)@ == (ControlsView {
                corruptions: old(self)@.corruptions.push(Corruption { request_id, byte_offset }),
                ..old(self)@
            }),
    {
        self.corruptions.push(Corruption { request_id, byte_offset });
    }

    /// Start the random numbers anew.
    pub fn set_seed(&mut self, seed: u64)
        ensures
            final(self)@ == (ControlsView { seed, rng_state: 0, ..old(self)@ }),
    {
        self.seed = seed;
        self.rng_state = 0;
    }

    /// How many bytes have passed.
    pub fn bytes_through(&self) -> (r: u64)
        ensures
            r == self@.bytes_through,
    {
        self.bytes_through
    }

    /// Whether the connection is broken.
    pub fn is_disconnected(&self) -> (r: bool)
        ensures
            r == self@.disconnected,
    {
        self.disconnected
    }

    /// Draw a random number.
    pub fn next_random(&mut self) -> (r: u64)
        ensures
            r == drawn(next_state(old(self)@.seed, old(self)@.rng_state)),
            final(self)@ == (ControlsView {
                rng_state: next_state(old(self)@.seed, old(self)@.rng_state),
                ..old(self)@
            }),
    {
        let mut x: u64 = if self.rng_state == 0 {
            self.seed.wrapping_add(0x9E3779B97F4A7C15)
        } else {
            self.rng_state
        };
        x = x ^ (x >> 12u64);
        x = x ^ (x << 25u64);
        x = x ^ (x >> 27u64);
        self.rng_state = x;
        x.wrapping_mul(0x2545F4914F6CDD1D)
    }

    fn take_offsets(&mut self, id: RequestId) -> (r: Vec<usize>)
        ensures
            r@ == offsets_for(old(self)@.corruptions, id),
            final(self)@ == (ControlsView {
                corruptions: for_others(old(self)@.corruptions, id),
                ..old(self)@
            }),
    {
        let ghost all = self.corruptions@;
        let mut taken: Vec<usize> = Vec::new();
        let mut kept: Vec<Corruption> = Vec::new();
        let mut i: usize = 0;
        assert(all.take(0) =~= Seq::empty());
        while i < self.corruptions.len()
            invariant
                i <= all.len(),
                all == self.corruptions@,
                self@ == old(self)@,
                taken@ == offsets_for(all.take(i as int), id),
                kept@ == for_others(all.take(i as int), id),
            decreases all.len() - i,
        {
            let c: Corruption = self.corruptions[i];
            proof {
                assert(all.take(i + 1).drop_last() =~= all.take(i as int));
                assert(all.take(i + 1).last() == c);
            }
            if c.request_id == id {
                taken.push(c.byte_offset);
            } else {
                kept.push(c);
            }
            i += 1;
        }
        assert(all.take(all.len() as int) =~= all);
        self.corruptions = kept;
        taken
    }

    /// Pass a frame on.
    pub fn forward(&mut self, frame: Frame) -> (r: Passage)
        ensures
            final(self)@ == after_passing(old(self)@, frame),
            r matches Passage::Forwarded { frame: f, latency_ns } && latency_ns
                == old(self)@.latency_ns && damaged(frame, old(self)@.corruptions, f),
    {
        let latency_ns: u64 = self.latency_ns;
        match frame {
            Frame::Response { id, body } => {
                let offsets: Vec<usize> = self.take_offsets(id);
                let body2: Response = match body {
                    Response::Bytes { data, hash, generation } => {
                        let data2: Bytes = flip(&data, &offsets);
                        Response::Bytes { data: data2, hash, generation }
                    },
                    other => other,
                };
                Passage::Forwarded { frame: Frame::Response { id, body: body2 }, latency_ns }
            },
            other => Passage::Forwarded { frame: other, latency_ns },
        }
    }

    /// Decide what becomes of a frame. Frames are lost at random where `lossy`
    /// says so.
    pub fn carry(&mut self, frame: Frame, lossy: bool) -> (r: Passage)
        ensures
            ({
                let (verdict, after) = decided(
                    old(self)@,
                    capped(frame_size(frame)),
                    lossy,
                );
                match verdict {
                    Verdict::Closed => r is Closed && final(self)@ == after,
                    Verdict::Held => r == Passage::Held(frame) && final(self)@ == after,
                    Verdict::Dropped => r is Dropped && final(self)@ == after,
                    Verdict::Tossed(random) => r == (Passage::Tossed { frame, random })
                        && final(self)@ == after,
                    Verdict::Forwarded => {
                        &&& final(self)@ == after_passing(after, frame)
                        &&& r matches Passage::Forwarded { frame: f, latency_ns }
                        &&& latency_ns == after.latency_ns
                        &&& damaged(frame, after.corruptions, f)
                    },
                }
            }),
    {
        if self.disconnected {
            return Passage::Closed;
        }
        if self.paused {
            return Passage::Held(frame);
        }
        let size: u64 = approx_frame_size(&frame);
        self.bytes_through = self.bytes_through.saturating_add(size);
        if let Some(limit) = self.limit {
            if self.bytes_through >= limit {
                self.disconnected = true;
                return Passage::Closed;
            }
        }
        if self.drop_next > 0 {
            self.drop_next = self.drop_next - 1;
            return Passage::Dropped;
        }
        if lossy {
            let random: u64 = self.next_random();
            return Passage::Tossed { frame, random };
        }
        self.forward(frame)
    }
}

fn flip(data: &Bytes, offsets: &Vec<usize>) -> (r: Bytes)
    ensures
        bytes_contents(r) == flipped(bytes_contents(*data), offsets@),
{
    let s: &[u8] = bytes_slice(data);
    let mut v: Vec<u8> = copy_range(s, 0, s.len());
    let mut i: usize = 0;
    proof {
        assert(s@.subrange(0, s@.len() as int) =~= s@);
        assert(offsets@.take(0) =~= Seq::empty());
    }
    while i < offsets.len()
        invariant
            i <= offsets@.len(),
            v@ == flipped(bytes_contents(*data), offsets@.take(i as int)),
        decreases offsets@.len() - i,
    {
        let at: usize = offsets[i];
        proof {
            assert(offsets@.take(i + 1).drop_last() =~= offsets@.take(i as int));
            assert(offsets@.take(i + 1).last() == at);
        }
        if at < v.len() {
            let b: u8 = v[at] ^ 0xFF;
            v.set(at, b);
        }
        i += 1;
    }
    assert(offsets@.take(offsets@.len() as int) =~= offsets@);
    bytes_from(v)
}

/// A transport within one process: two directions, each with controls of its
/// own.
pub struct InMemoryTransport;

impl InMemoryTransport {
    /// The directions from client to server and from server to client.
    pub fn pair() -> (r: (Controls, Controls))
        ensures
            r.0@ == quiet(),
            r.1@ == quiet(),
    {
        (Controls::new(), Controls::new())
    }
}

/// A broken connection stays broken and carries nothing, whatever is sent.
pub proof fn law_disconnect_is_final(v: ControlsView, size: u64, lossy: bool)
    requires
        v.disconnected,
    ensures
        decided(v, size, lossy).0 is Closed,
        decided(v, size, lossy).1 == v,
{
}

/// Without faults every frame passes, and nothing but the count of bytes
/// changes.
pub proof fn law_quiet_passes(v: ControlsView, size: u64)
    requires
        !v.disconnected,
        !v.paused,
        v.limit is None,
        v.drop_next == 0,
    ensures
        decided(v, size, false).0 is Forwarded,
        decided(v, size, false).1 == (ControlsView {
            bytes_through: capped(v.bytes_through + size),
            ..v
        }),
{
}

/// A damaged byte differs from what was sent, every other byte is what was
/// sent, and damaging it again restores it.
pub proof fn law_flip(data: Seq<u8>, at: usize)
    requires
        at < data.len(),
    ensures
        flipped(data, seq![at]).len() == data.len(),
        flipped(data, seq![at])[at as int] != data[at as int],
        forall|i: int|
            0 <= i < data.len() && i != at ==> flipped(data, seq![at])[i] == data[i],
        flipped(flipped(data, seq![at]), seq![at]) == data,
{
    lemma_flip_one(data, at);
    let once = data.update(at as int, data[at as int] ^ 0xFF);
    lemma_flip_one(once, at);
    let b = data[at as int];
    assert(b ^ 0xFF != b) by (bit_vector);
    assert((b ^ 0xFF) ^ 0xFF == b) by (bit_vector);
    assert(once.update(at as int, once[at as int] ^ 0xFF) =~= data);
}

proof fn lemma_flip_one(data: Seq<u8>, at: usize)
    requires
        at < data.len(),
    ensures
        flipped(data, seq![at]) == data.update(at as int, data[at as int] ^ 0xFF),
{
    reveal_with_fuel(flipped, 2);
    assert(seq![at].drop_last() =~= Seq::empty());
}

/// The answer to a request for which nothing was set passes as it was sent.
pub proof fn law_unmatched_untouched(cs: Seq<Corruption>, id: RequestId)
    requires
        forall|i: int| 0 <= i < cs.len() ==> (#[trigger] cs[i]).request_id != id,
    ensures
        offsets_for(cs, id).len() == 0,
        for_others(cs, id) == cs,
        forall|data: Seq<u8>| #[trigger] flipped(data, offsets_for(cs, id)) == data,
    decreases cs.len(),
{
    if cs.len() > 0 {
        let front = cs.drop_last();
        assert forall|i: int| 0 <= i < front.len() implies (#[trigger] front[i]).request_id
            != id by {
            assert(front[i] == cs[i]);
        }
        law_unmatched_untouched(front, id);
        assert(cs.last() == cs[cs.len() - 1]);
        assert(front.push(cs.last()) =~= cs);
    }
}

/// What is decided of a frame, in this order: a broken connection carries
/// nothing; a paused one holds the frame; a frame that brings the bytes up to
/// the limit breaks the connection; as many frames as were set are dropped;
/// then chance decides where it is asked to; any other frame passes. The bytes
/// of a frame are counted unless it is held or the connection is broken.
pub proof fn law_fate_of_frame(v: ControlsView, size: u64, lossy: bool)
    requires
        v.bytes_through + size <= u64::MAX,
    ensures
        ({
            let (fate, w) = decided(v, size, lossy);
            let total = v.bytes_through + size;
            let breaks = v.limit is Some && total >= v.limit->0;
            if v.disconnected {
                fate is Closed && w == v
            } else if v.paused {
                fate is Held && w == v
            } else {
                &&& w.bytes_through == total
                &&& w.latency_ns == v.latency_ns
                &&& w.limit == v.limit
                &&& w.corruptions == v.corruptions
                &&& w.disconnected <==> breaks
                &&& fate is Closed <==> breaks
                &&& fate is Dropped <==> !breaks && v.drop_next > 0
                &&& w.drop_next == (if !breaks && v.drop_next > 0 {
                    v.drop_next - 1
                } else {
                    v.drop_next as int
                })
                &&& fate is Tossed <==> !breaks && v.drop_next == 0 && lossy
                &&& fate is Forwarded <==> !breaks && v.drop_next == 0 && !lossy
                &&& !(fate is Tossed) ==> w.rng_state == v.rng_state
            }
        }),
{
}

/// About how many bytes a frame takes: 64 and those of a write or of the data
/// that is answered, 64 for each entry of a page and 32, 64 for any other
/// request and 32 for any other answer or message.
pub proof fn law_frame_sizes(id: RequestId, req: Request, resp: Response, p: crate::protocol::Push)
    ensures
        frame_size(Frame::Request { id, body: req }) == (match req {
            Request::Write { data, .. } => 64 + bytes_contents(data).len(),
            _ => 64,
        }),
        frame_size(Frame::Response { id, body: resp }) == (match resp {
            Response::Bytes { data, .. } => 64 + bytes_contents(data).len(),
            Response::DirPage { entries, .. } => 32 + 64 * entries@.len(),
            _ => 32,
        }),
        frame_size(Frame::Push(p)) == 32,
{
}

/// The damage that was set for a request is done in the order in which it was
/// set, and used up then; what was set for others waits, in its order.
pub proof fn law_damage_for_request(cs: Seq<Corruption>, id: RequestId)
    ensures
        offsets_for(cs, id) == cs.filter(|c: Corruption| c.request_id == id).map_values(
            |c: Corruption| c.byte_offset,
        ),
        for_others(cs, id) == cs.filter(|c: Corruption| c.request_id != id),
    decreases cs.len(),
{
    reveal(Seq::filter);
    let mine = |c: Corruption| c.request_id == id;
    let others = |c: Corruption| c.request_id != id;
    let offset = |c: Corruption| c.byte_offset;
    if cs.len() > 0 {
        let rest = cs.drop_last();
        law_damage_for_request(rest, id);
        if cs.last().request_id == id {
            assert(rest.filter(mine).push(cs.last()).map_values(offset) =~= rest.filter(
                mine,
            ).map_values(offset).push(cs.last().byte_offset));
        }
    } else {
        assert(offsets_for(cs, id) =~= cs.filter(mine).map_values(offset));
        assert(for_others(cs, id) =~= cs.filter(others));
    }
}

/// Damage inverts a byte each time that its offset was set, and leaves the
/// others; an offset beyond the end damages nothing.
pub proof fn law_damage_at_offsets(data: Seq<u8>, offsets: Seq<usize>, at: usize, i: int)
    requires
        0 <= i < data.len(),
    ensures
        flipped(data, offsets).len() == data.len(),
        flipped(data, Seq::empty()) == data,
        flipped(data, offsets.push(at))[i] == (if i == at {
            (255 - flipped(data, offsets)[i]) as u8
        } else {
            flipped(data, offsets)[i]
        }),
    decreases offsets.len(),
{
    if offsets.len() > 0 {
        law_damage_at_offsets(data, offsets.drop_last(), at, i);
    }
    assert(offsets.push(at).drop_last() =~= offsets);
    let b = flipped(data, offsets)[i];
    assert(b ^ 0xFF == (255 - b) as u8) by (bit_vector);
}

/// The generator can be wound back: its next state gives back the one before,
/// or the start that the seed stands for, and a drawn number gives back the
/// state that it was drawn from. So no two states are followed by the same
/// one, and no two stand for the same number.
pub proof fn law_generator_wound_back(seed: u64, state: u64)
    ensures
        ({
            let r = next_state(seed, state);
            let c = r ^ (r >> 27u64) ^ (r >> 54u64);
            let b = c ^ (c << 25u64) ^ (c << 50u64);
            let a = b ^ (b >> 12u64) ^ (b >> 24u64) ^ (b >> 36u64) ^ (b >> 48u64) ^ (b >> 60u64);
            &&& state != 0 ==> a == state
            &&& state == 0 ==> a == (seed + 0x9E3779B97F4A7C15) % 0x1_0000_0000_0000_0000
        }),
        (drawn(state) * 6415128727920758069) % 0x1_0000_0000_0000_0000 == state,
{
    let a: u64 = if state == 0 {
        seed.wrapping_add(0x9E3779B97F4A7C15)
    } else {
        state
    };
    let b: u64 = a ^ (a >> 12u64);
    let c: u64 = b ^ (b << 25u64);
    let r: u64 = c ^ (c >> 27u64);
    assert(r ^ (r >> 27u64) ^ (r >> 54u64) == c) by (bit_vector)
        requires
            r == c ^ (c >> 27u64),
    ;
    assert(c ^ (c << 25u64) ^ (c << 50u64) == b) by (bit_vector)
        requires
            c == b ^ (b << 25u64),
    ;
    assert(b ^ (b >> 12u64) ^ (b >> 24u64) ^ (b >> 36u64) ^ (b >> 48u64) ^ (b >> 60u64) == a)
        by (bit_vector)
        requires
            b == a ^ (a >> 12u64),
    ;
    let m: int = 0x1_0000_0000_0000_0000;
    let k: int = 0x2545F4914F6CDD1D;
    let v: int = 6415128727920758069;
    let s = state as int;
    vstd::arithmetic::div_mod::lemma_mul_mod_noop_left(s * k, v, m);
    let q: int = 934034299265436267;
    assert(k * v == q * m + 1);
    assert(s * k * v == m * (s * q) + s) by (nonlinear_arith)
        requires
            k * v == q * m + 1,
    ;
    vstd::arithmetic::div_mod::lemma_mod_multiples_vanish(s * q, s, m);
    vstd::arithmetic::div_mod::lemma_small_mod(state as nat, m as nat);
}

/// What passes arrives as it was sent, but for the bytes of an answer that
/// were to be damaged: each such byte is another one, and every other byte,
/// the digest and the number of changes stay.
pub proof fn law_damage_of_frame(a: Frame, cs: Seq<Corruption>, b: Frame)
    requires
        damaged(a, cs, b),
    ensures
        !(a matches Frame::Response { body: Response::Bytes { .. }, .. }) ==> b == a,
        a matches Frame::Response { id, body: Response::Bytes { data, hash, generation } } ==> {
            &&& b matches Frame::Response { id: j, .. } && j == id
            &&& b->Response_body matches Response::Bytes { data: d, hash: h, generation: g } && h == hash
                && g == generation && bytes_contents(d).len() == bytes_contents(data).len() && ((
            forall|i: int| 0 <= i < cs.len() ==> (#[trigger] cs[i]).request_id != id)
                ==> bytes_contents(d) == bytes_contents(data))
        },
{
    if let Frame::Response { id, body: Response::Bytes { data, .. } } = a {
        lemma_flipped_len(bytes_contents(data), offsets_for(cs, id));
        if forall|i: int| 0 <= i < cs.len() ==> (#[trigger] cs[i]).request_id != id {
            lemma_no_offsets(cs, id);
        }
    }
}

proof fn lemma_flipped_len(data: Seq<u8>, offsets: Seq<usize>)
    ensures
        flipped(data, offsets).len() == data.len(),
    decreases offsets.len(),
{
    if offsets.len() > 0 {
        lemma_flipped_len(data, offsets.drop_last());
    }
}

proof fn lemma_no_offsets(cs: Seq<Corruption>, id: RequestId)
    requires
        forall|i: int| 0 <= i < cs.len() ==> (#[trigger] cs[i]).request_id != id,
    ensures
        offsets_for(cs, id).len() == 0,
    decreases cs.len(),
{
    if cs.len() > 0 {
        lemma_no_offsets(cs.drop_last(), id);
    }
}

/// What passing a frame uses up: the damage set for its request, and nothing
/// else.
pub proof fn law_damage_used_up(v: ControlsView, frame: Frame)
    ensures
        after_passing(v, frame).latency_ns == v.latency_ns,
        after_passing(v, frame).drop_next == v.drop_next,
        after_passing(v, frame).limit == v.limit,
        after_passing(v, frame).disconnected == v.disconnected,
        after_passing(v, frame).paused == v.paused,
        after_passing(v, frame).bytes_through == v.bytes_through,
        after_passing(v, frame).seed == v.seed,
        after_passing(v, frame).rng_state == v.rng_state,
        !(frame is Response) ==> after_passing(v, frame).corruptions == v.corruptions,
        frame matches Frame::Response { id, .. } ==> after_passing(v, frame).corruptions
            == for_others(v.corruptions, id),
{
}

} // verus!
