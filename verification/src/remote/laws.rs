//! What holds of the cache as a whole: it is invisible.

use vstd::prelude::*;

use crate::host::dispatch::generation;
use crate::host::watcher::{
    event_pushes, known_ino, parent_entry, path_pushes, paths_pushes, rule, EventKind, Rule,
};
use crate::path::Comp;
use crate::payload::{spliced, window};
use crate::protocol::errno::ENOENT;
use crate::protocol::{FileAttr, Ino, PushView};
use crate::remote::cache::{
    all_answered, answered, applied, attr_over, barrier_result, cached_attr, cached_lookup,
    dirty_of, drain_result, expiry, fed, first_error, flush_taken, flush_told, idle, lined_up,
    lookup_answered, pushed, read_over, settled, truncated, wb_of, with_attr, with_chunk, written, zeros,
    CacheConfig, CacheCounts, CacheView, ExtentView, FlushView, ReadView, WriteBackView,
};
use crate::remote::client::ClientError;
use crate::remote::content_cache::{
    distinct, inserted, kept, law_get_after_insert, law_insert_idempotent,
    law_insert_leaves_others, law_invalidate_idempotent, lemma_dropped, lemma_kept_dropped,
    of_inode, of_range, of_write, overwritten, the_chunk, touched, ChunkView, ContentCacheConfig,
};

verus! {

/// Whether the chunks that are kept of an inode hold what the host's file `c`
/// holds there.
pub open spec fn coherent(chunks: Seq<ChunkView>, chunk_size: int, ino: Ino, c: Seq<u8>) -> bool {
    forall|idx: u64| #[trigger]
        kept(chunks, ino, idx) matches Some(b) ==> b == window(c, idx * chunk_size, chunk_size)
}

/// Whether a read in progress has gathered the bytes of the file `c`.
pub open spec fn reads(r: ReadView, c: Seq<u8>) -> bool {
    &&& r.got == window(c, r.offset as int, r.got.len() as int)
    &&& r.done ==> r.got == window(c, r.offset as int, r.size as int)
    &&& !r.done ==> r.got.len() == 0 || r.at() <= c.len()
}

/// A read that starts has gathered nothing wrong.
pub proof fn law_read_starts(ino: Ino, offset: u64, size: u32, c: Seq<u8>)
    ensures
        reads(ReadView { ino, offset, size, got: Seq::empty(), done: size == 0 }, c),
{
    assert(window(c, offset as int, 0) =~= Seq::empty());
}

/// Taking in the chunk of the file that the read asks for next keeps it right.
pub proof fn law_read_goes_on(r: ReadView, chunk_size: int, c: Seq<u8>, b: Seq<u8>)
    requires
        r.wf(),
        !r.done,
        chunk_size > 0,
        reads(r, c),
        b == window(c, r.at() / chunk_size * chunk_size, chunk_size),
    ensures
        reads(fed(r, chunk_size, b), c),
{
    let at = r.at();
    let start = at / chunk_size * chunk_size;
    let off = at % chunk_size;
    assert(start + off == at && 0 <= off < chunk_size && 0 <= start) by (nonlinear_arith)
        requires
            start == at / chunk_size * chunk_size,
            off == at % chunk_size,
            chunk_size > 0,
            at >= 0,
    ;
    let more = window(b, off, r.size - r.got.len());
    let f = fed(r, chunk_size, b);
    assert(f.got == r.got + more);
    if b.len() < chunk_size {
        assert(start + b.len() >= c.len());
        assert(f.got =~= window(c, r.offset as int, r.size as int));
        assert(f.got =~= window(c, r.offset as int, f.got.len() as int));
    } else {
        assert(start + chunk_size <= c.len());
        assert(f.got =~= window(c, r.offset as int, f.got.len() as int));
        assert(f.at() <= c.len());
    }
}

proof fn lemma_applied_window(
    x: Seq<u8>,
    c: Seq<u8>,
    dirty: Seq<ExtentView>,
    offset: int,
    size: int,
)
    requires
        offset >= 0,
        size >= 0,
        window(x, offset, size) == window(c, offset, size),
    ensures
        window(applied(x, dirty), offset, size) == window(applied(c, dirty), offset, size),
    decreases dirty.len(),
{
    if dirty.len() > 0 {
        lemma_applied_window(x, c, dirty.drop_last(), offset, size);
        let a = applied(x, dirty.drop_last());
        let b = applied(c, dirty.drop_last());
        let e = dirty.last();
        let wa = window(spliced(a, e.offset as int, e.data), offset, size);
        let wb = window(spliced(b, e.offset as int, e.data), offset, size);
        let va = window(a, offset, size);
        let vb = window(b, offset, size);
        assert(va == vb);
        assert(wa.len() == wb.len());
        assert forall|i: int| 0 <= i < wa.len() implies wa[i] == wb[i] by {
            if i < va.len() {
                assert(va[i] == a[offset + i]);
                assert(vb[i] == b[offset + i]);
            }
        }
        assert(wa =~= wb);
    }
}

/// The cache is invisible: a finished read of a file gives what the file holds
/// with the buffered writes of this sprite applied, and nothing else. Without
/// buffered writes it is what the host itself would answer.
pub proof fn law_read_transparent(r: ReadView, c: Seq<u8>, dirty: Seq<ExtentView>)
    requires
        r.wf(),
        r.done,
        reads(r, c),
    ensures
        read_over(r.got, r.offset, r.size, dirty) == window(
            applied(c, dirty),
            r.offset as int,
            r.size as int,
        ),
        dirty.len() == 0 ==> read_over(r.got, r.offset, r.size, dirty) == window(
            c,
            r.offset as int,
            r.size as int,
        ),
{
    let base = zeros(r.offset as nat) + r.got;
    assert(window(base, r.offset as int, r.size as int) =~= r.got);
    lemma_applied_window(base, c, dirty, r.offset as int, r.size as int);
}

/// A large read, for which the host was asked at once, gives the same.
pub proof fn law_direct_read_transparent(
    offset: u64,
    size: u32,
    c: Seq<u8>,
    dirty: Seq<ExtentView>,
)
    ensures
        ({
            let sent = window(c, offset as int, size as int);
            read_over(window(sent, 0, size as int), offset, size, dirty) == window(
                applied(c, dirty),
                offset as int,
                size as int,
            )
        }),
{
    let sent = window(c, offset as int, size as int);
    let got = window(sent, 0, size as int);
    assert(got =~= sent);
    let base = zeros(offset as nat) + got;
    assert(window(base, offset as int, size as int) =~= got);
    lemma_applied_window(base, c, dirty, offset as int, size as int);
}

/// A sprite reads its own writes: right after a write, the written range reads
/// as the written bytes, whatever the host holds and whatever was written
/// before.
pub proof fn law_reads_own_write(
    v: CacheView,
    chunk_size: int,
    ino: Ino,
    handle: u64,
    offset: u64,
    data: Seq<u8>,
    c: Seq<u8>,
)
    ensures
        window(
            applied(c, dirty_of(written(v, chunk_size, ino, handle, offset, data), ino)),
            offset as int,
            data.len() as int,
        ) == data,
{
    let w = written(v, chunk_size, ino, handle, offset, data);
    let d = dirty_of(w, ino);
    assert(d.drop_last() =~= dirty_of(v, ino));
    crate::payload::lemma_read_after_write(applied(c, d.drop_last()), offset as int, data);
}

/// The size that is reported is the size of what is read: the length of the
/// host's file with the buffered writes applied.
pub proof fn law_size_matches_content(attr: FileAttr, c: Seq<u8>, dirty: Seq<ExtentView>)
    requires
        attr.size == c.len(),
        forall|i: int|
            0 <= i < dirty.len() ==> (#[trigger] dirty[i]).offset + dirty[i].data.len() <= u64::MAX,
    ensures
        attr_over(attr, dirty).size == applied(c, dirty).len(),
    decreases dirty.len(),
{
    if dirty.len() > 0 {
        let before = dirty.drop_last();
        assert forall|i: int| 0 <= i < before.len() implies (#[trigger] before[i]).offset
            + before[i].data.len() <= u64::MAX by {
            assert(before[i] == dirty[i]);
        }
        law_size_matches_content(attr, c, before);
        assert(dirty[dirty.len() - 1] == dirty.last());
    }
}

/// Chunks stay coherent when one is used, and when one of the file is put in.
pub proof fn law_fill_keeps_coherent(
    chunks: Seq<ChunkView>,
    max: int,
    chunk_size: int,
    ino: Ino,
    c: Seq<u8>,
    at: Ino,
    idx: u64,
    data: Seq<u8>,
)
    requires
        coherent(chunks, chunk_size, ino, c),
        at == ino ==> data == window(c, idx * chunk_size, chunk_size),
    ensures
        coherent(inserted(chunks, max, at, idx, data), chunk_size, ino, c),
        coherent(touched(chunks, at, idx), chunk_size, ino, c),
{
    let s = inserted(chunks, max, at, idx, data);
    assert forall|k: u64| (#[trigger] kept(s, ino, k)) is Some implies kept(s, ino, k)->0 == window(
        c,
        k * chunk_size,
        chunk_size,
    ) by {
        let b = kept(s, ino, k)->0;
        if ino == at && k == idx {
            if data.len() <= max {
                law_get_after_insert(chunks, max, at, idx, data);
            }
        } else {
            law_insert_leaves_others(chunks, max, at, idx, data, ino, k);
            assert(kept(chunks, ino, k) == Some(b));
        }
    }
    let t = touched(chunks, at, idx);
    assert forall|k: u64| (#[trigger] kept(t, ino, k)) is Some implies kept(t, ino, k)->0 == window(
        c,
        k * chunk_size,
        chunk_size,
    ) by {
        if kept(chunks, at, idx) is Some {
            lemma_kept_dropped(chunks, the_chunk(at, idx), ino, k);
            assert(t.drop_last() =~= crate::remote::content_cache::without_chunk(chunks, at, idx));
        }
        assert(kept(t, ino, k) == kept(chunks, ino, k));
    }
}

/// Chunks stay coherent through a write: what is kept after it holds both what
/// the file held and what it holds once the write has reached the host.
pub proof fn law_write_keeps_coherent(
    chunks: Seq<ChunkView>,
    chunk_size: int,
    ino: Ino,
    c: Seq<u8>,
    offset: u64,
    data: Seq<u8>,
)
    requires
        chunk_size > 0,
        data.len() <= u64::MAX,
        offset + data.len() <= u64::MAX,
        distinct(chunks),
        coherent(chunks, chunk_size, ino, c),
    ensures
        coherent(
            overwritten(chunks, chunk_size, ino, offset, data.len() as u64),
            chunk_size,
            ino,
            c,
        ),
        coherent(
            overwritten(chunks, chunk_size, ino, offset, data.len() as u64),
            chunk_size,
            ino,
            spliced(c, offset as int, data),
        ),
{
    let len = data.len() as u64;
    let s = overwritten(chunks, chunk_size, ino, offset, len);
    let c2 = spliced(c, offset as int, data);
    assert forall|k: u64| (#[trigger] kept(s, ino, k)) is Some implies kept(s, ino, k)->0 == window(
        c,
        k * chunk_size,
        chunk_size,
    ) && kept(s, ino, k)->0 == window(c2, k * chunk_size, chunk_size) by {
        let b = kept(s, ino, k)->0;
        lemma_kept_dropped(chunks, of_inode(ino), ino, k);
        if len > 0 {
            let f = of_write(ino, chunk_size, offset as int, len as int);
            crate::remote::content_cache::lemma_kept_survivor(chunks, f, ino, k);
            assert(kept(chunks, ino, k) == Some(b));
            let start = k * chunk_size;
            assert((k + 1) * chunk_size == start + chunk_size && start >= 0) by (nonlinear_arith)
                requires
                    start == k * chunk_size,
                    k >= 0,
                    chunk_size > 0,
            ;
            assert(b =~= window(c2, start, chunk_size));
        }
    }
}

/// What writes on their way put where.
pub open spec fn extents(queue: Seq<FlushView>) -> Seq<ExtentView> {
    Seq::new(
        queue.len(),
        |i: int| ExtentView { offset: queue[i].offset, data: queue[i].data },
    )
}

/// A file after writes have reached the host in their order.
pub open spec fn flushed(c: Seq<u8>, queue: Seq<FlushView>) -> Seq<u8> {
    applied(c, extents(queue))
}

/// The file of the host ends up the same, whether the first write in the queue
/// has reached it or not: no write is lost, and none overtakes another.
pub proof fn law_flush_in_order(c: Seq<u8>, queue: Seq<FlushView>)
    requires
        queue.len() > 0,
    ensures
        flushed(spliced(c, queue[0].offset as int, queue[0].data), queue.drop_first()) == flushed(
            c,
            queue,
        ),
    decreases queue.len(),
{
    let rest = queue.drop_first();
    let next = spliced(c, queue[0].offset as int, queue[0].data);
    if queue.len() == 1 {
        assert(extents(queue).drop_last() =~= Seq::empty());
        assert(extents(rest) =~= Seq::empty());
        assert(applied(c, Seq::empty()) == c);
        assert(flushed(c, queue) == next);
    } else {
        let before = queue.drop_last();
        law_flush_in_order(c, before);
        assert(before.drop_first() =~= rest.drop_last());
        assert(extents(queue).drop_last() =~= extents(before));
        assert(extents(rest).drop_last() =~= extents(rest.drop_last()));
        assert(before[0] == queue[0]);
        assert(extents(rest).last() == extents(queue).last());
    }
}

/// Writes applied one after the other, in two parts.
proof fn lemma_applied_parts(c: Seq<u8>, a: Seq<ExtentView>, b: Seq<ExtentView>)
    ensures
        applied(c, a + b) == applied(applied(c, a), b),
    decreases b.len(),
{
    if b.len() == 0 {
        assert(a + b =~= a);
    } else {
        assert((a + b).drop_last() =~= a + b.drop_last());
        lemma_applied_parts(c, a, b.drop_last());
    }
}

/// Whether the host's file `now` holds what it held when nothing was buffered,
/// `base`, with the answered writes applied in their order. Nothing is said
/// once a write has failed.
pub open spec fn keeps_up(now: Seq<u8>, base: Seq<u8>, w: WriteBackView) -> bool {
    w.first_error is None ==> now == applied(base, w.dirty.take(answered(w)))
}

/// Something that happens to the buffered writes of an inode.
pub enum WriteStep {
    /// A write is buffered.
    Written { handle: u64, offset: u64, data: Seq<u8> },
    /// The next write is sent.
    Sent,
    /// The host answers the write that was sent.
    Answered(Result<u32, ClientError>),
}

/// The cache and the host's file after a step: a write that the host accepts
/// stands in its file at its offset, one that it refuses does not.
pub open spec fn stepped(
    v: CacheView,
    chunk_size: int,
    ino: Ino,
    host: Seq<u8>,
    step: WriteStep,
) -> (CacheView, Seq<u8>) {
    match step {
        WriteStep::Written { handle, offset, data } => (
            written(v, chunk_size, ino, handle, offset, data),
            host,
        ),
        WriteStep::Sent => (flush_taken(v, ino), host),
        WriteStep::Answered(r) => {
            let w = wb_of(v, ino);
            let sent = w.dirty[answered(w)];
            (
                flush_told(v, ino, r),
                if r is Ok {
                    spliced(host, sent.offset as int, sent.data)
                } else {
                    host
                },
            )
        },
    }
}

/// The cache and the host's file after a number of steps.
pub open spec fn ran(
    v: CacheView,
    chunk_size: int,
    ino: Ino,
    host: Seq<u8>,
    steps: Seq<WriteStep>,
) -> (CacheView, Seq<u8>)
    decreases steps.len(),
{
    if steps.len() == 0 {
        (v, host)
    } else {
        let (u, h) = ran(v, chunk_size, ino, host, steps.drop_last());
        stepped(u, chunk_size, ino, h, steps.last())
    }
}

/// Whether the host answers only what was sent.
pub open spec fn possible(
    v: CacheView,
    chunk_size: int,
    ino: Ino,
    host: Seq<u8>,
    steps: Seq<WriteStep>,
) -> bool
    decreases steps.len(),
{
    steps.len() > 0 ==> {
        let (u, _) = ran(v, chunk_size, ino, host, steps.drop_last());
        &&& possible(v, chunk_size, ino, host, steps.drop_last())
        &&& steps.last() is Answered ==> wb_of(u, ino).in_flight
    }
}

/// The writes among the steps.
pub open spec fn writes_in(steps: Seq<WriteStep>) -> Seq<ExtentView>
    decreases steps.len(),
{
    if steps.len() == 0 {
        Seq::empty()
    } else {
        match steps.last() {
            WriteStep::Written { offset, data, .. } => writes_in(steps.drop_last()).push(
                ExtentView { offset, data },
            ),
            _ => writes_in(steps.drop_last()),
        }
    }
}

/// The answers among the steps.
pub open spec fn answers_in(steps: Seq<WriteStep>) -> Seq<Result<u32, ClientError>>
    decreases steps.len(),
{
    if steps.len() == 0 {
        Seq::empty()
    } else {
        match steps.last() {
            WriteStep::Answered(r) => answers_in(steps.drop_last()).push(r),
            _ => answers_in(steps.drop_last()),
        }
    }
}

/// Every step keeps the writes in order and the host's file up with them.
proof fn lemma_step_keeps_up(
    v: CacheView,
    chunk_size: int,
    ino: Ino,
    base: Seq<u8>,
    host: Seq<u8>,
    step: WriteStep,
)
    requires
        lined_up(wb_of(v, ino)),
        keeps_up(host, base, wb_of(v, ino)),
        step is Answered ==> wb_of(v, ino).in_flight,
    ensures
        ({
            let (u, h) = stepped(v, chunk_size, ino, host, step);
            lined_up(wb_of(u, ino)) && keeps_up(h, base, wb_of(u, ino))
        }),
{
    let w = wb_of(v, ino);
    let (u, h) = stepped(v, chunk_size, ino, host, step);
    let x = wb_of(u, ino);
    match step {
        WriteStep::Written { .. } => {
            assert(x.dirty.take(answered(w)) =~= w.dirty.take(answered(w)));
        },
        WriteStep::Sent => {
            if !w.in_flight && w.queue.len() > 0 {
                assert forall|i: int|
                    #![trigger x.queue[i]]
                    0 <= i < x.queue.len() implies x.dirty[x.dirty.len() - x.queue.len() + i] == (
                ExtentView { offset: x.queue[i].offset, data: x.queue[i].data }) by {
                    assert(x.queue[i] == w.queue[i + 1]);
                }
            }
        },
        WriteStep::Answered(r) => {
            assert(x.dirty == w.dirty && x.queue == w.queue);
            assert forall|i: int|
                #![trigger x.queue[i]]
                0 <= i < x.queue.len() implies x.dirty[x.dirty.len() - x.queue.len() + i] == (
            ExtentView { offset: x.queue[i].offset, data: x.queue[i].data }) by {
                assert(x.queue[i] == w.queue[i]);
            }
            let n = answered(w);
            assert(w.dirty.take(n + 1).drop_last() =~= w.dirty.take(n));
            assert(w.dirty.take(n + 1).last() == w.dirty[n]);
        },
    }
}

proof fn lemma_run_keeps_up(
    v: CacheView,
    chunk_size: int,
    ino: Ino,
    host: Seq<u8>,
    steps: Seq<WriteStep>,
)
    requires
        wb_of(v, ino) == idle(),
        possible(v, chunk_size, ino, host, steps),
    ensures
        ({
            let (u, now) = ran(v, chunk_size, ino, host, steps);
            let w = wb_of(u, ino);
            &&& lined_up(w)
            &&& keeps_up(now, host, w)
            &&& w.dirty == writes_in(steps)
            &&& answered(w) == answers_in(steps).len()
            &&& w.first_error == after_answers(None, answers_in(steps))
        }),
    decreases steps.len(),
{
    if steps.len() == 0 {
        assert(Seq::<ExtentView>::empty().take(0) =~= Seq::empty());
        assert(applied(host, Seq::empty()) == host);
    } else {
        let before = steps.drop_last();
        lemma_run_keeps_up(v, chunk_size, ino, host, before);
        let (u, now) = ran(v, chunk_size, ino, host, before);
        lemma_step_keeps_up(u, chunk_size, ino, host, now, steps.last());
        if steps.last() is Answered {
            assert(answers_in(steps).drop_last() =~= answers_in(before));
        }
    }
}

/// A sync is a barrier, and so is a release: whatever was written, sent and
/// answered since nothing was buffered, once every write is answered a drain
/// gives success only if the host accepted them all, and then its file holds
/// them all, applied in the order in which they were made. Otherwise it gives
/// the first failure. Nothing stays buffered either way.
pub proof fn law_barrier(
    v: CacheView,
    chunk_size: int,
    ino: Ino,
    host: Seq<u8>,
    steps: Seq<WriteStep>,
)
    requires
        wb_of(v, ino) == idle(),
        possible(v, chunk_size, ino, host, steps),
        all_answered(wb_of(ran(v, chunk_size, ino, host, steps).0, ino)),
    ensures
        ({
            let (u, now) = ran(v, chunk_size, ino, host, steps);
            let r = drain_result(wb_of(u, ino));
            &&& answers_in(steps).len() == writes_in(steps).len()
            &&& r is Ok <==> forall|i: int|
                0 <= i < answers_in(steps).len() ==> (#[trigger] answers_in(steps)[i]) is Ok
            &&& r is Ok ==> now == applied(host, writes_in(steps))
            &&& r matches Err(e) ==> after_answers(None, answers_in(steps)) == Some(e)
            &&& wb_of(settled(u, ino), ino) == idle()
        }),
{
    lemma_run_keeps_up(v, chunk_size, ino, host, steps);
    law_failed_write_surfaces(answers_in(steps));
    let (u, now) = ran(v, chunk_size, ino, host, steps);
    let w = wb_of(u, ino);
    assert(w.dirty.take(answered(w)) =~= writes_in(steps));
    let x = wb_of(settled(u, ino), ino);
    assert(x.queue =~= idle().queue);
    if answers_in(steps).len() > 0 && w.first_error is Some {
        let e = w.first_error->0;
        let i = choose|i: int|
            0 <= i < answers_in(steps).len() && #[trigger] answers_in(steps)[i] == Err::<u32, _>(e)
                && (forall|j: int| 0 <= j < i ==> (#[trigger] answers_in(steps)[j]) is Ok);
        assert(answers_in(steps)[i] is Err);
    }
}

/// While nothing is being sent and no write has failed, the writes still to be
/// sent bring the host's file to what is read now, however many were answered
/// already.
pub proof fn law_writes_reach_host(
    v: CacheView,
    chunk_size: int,
    ino: Ino,
    host: Seq<u8>,
    steps: Seq<WriteStep>,
)
    requires
        wb_of(v, ino) == idle(),
        possible(v, chunk_size, ino, host, steps),
    ensures
        ({
            let (u, now) = ran(v, chunk_size, ino, host, steps);
            let w = wb_of(u, ino);
            !w.in_flight && w.first_error is None ==> flushed(now, w.queue) == applied(
                host,
                dirty_of(u, ino),
            ) && flushed(now, w.queue) == applied(host, writes_in(steps))
        }),
{
    lemma_run_keeps_up(v, chunk_size, ino, host, steps);
    let (u, now) = ran(v, chunk_size, ino, host, steps);
    let w = wb_of(u, ino);
    if !w.in_flight && w.first_error is None {
        let n = answered(w);
        lemma_applied_parts(host, w.dirty.take(n), extents(w.queue));
        assert(w.dirty =~= w.dirty.take(n) + extents(w.queue)) by {
            assert forall|i: int| 0 <= i < w.queue.len() implies w.dirty[n + i] == extents(
                w.queue,
            )[i] by {
                assert(w.queue[i].offset == w.queue[i].offset);
            }
        }
    }
}

/// A failure is told once: after a drain, a sync or release before which every
/// later write was accepted gives what the host says to it, also where the
/// drain itself gave a failure.
pub proof fn law_failure_told_once(
    v: CacheView,
    chunk_size: int,
    ino: Ino,
    host: Seq<u8>,
    steps: Seq<WriteStep>,
    answer: Result<(), ClientError>,
)
    requires
        all_answered(wb_of(v, ino)),
        possible(settled(v, ino), chunk_size, ino, host, steps),
        forall|i: int|
            0 <= i < answers_in(steps).len() ==> (#[trigger] answers_in(steps)[i]) is Ok,
        all_answered(wb_of(ran(settled(v, ino), chunk_size, ino, host, steps).0, ino)),
    ensures
        ({
            let u = ran(settled(v, ino), chunk_size, ino, host, steps).0;
            barrier_result(drain_result(wb_of(u, ino)), answer) == answer
        }),
{
    assert(wb_of(settled(v, ino), ino).queue =~= idle().queue);
    law_barrier(settled(v, ino), chunk_size, ino, host, steps);
}

/// A failure is told: where a write before a sync or release failed, that is
/// what it gives, whatever the host says to it.
pub proof fn law_failure_told(w: WriteBackView, answer: Result<(), ClientError>)
    ensures
        w.first_error matches Some(e) ==> barrier_result(drain_result(w), answer) == Err::<(), _>(e),
        w.first_error is None ==> barrier_result(drain_result(w), answer) == answer,
{
}

/// Draining is invisible: a read of the host's old file with the writes on top
/// gives what a read of its new file gives once the writes are settled.
pub proof fn law_drain_invisible(
    v: CacheView,
    ino: Ino,
    offset: u64,
    size: u32,
    c: Seq<u8>,
)
    ensures
        ({
            let d = dirty_of(v, ino);
            let later = applied(c, d);
            read_over(window(c, offset as int, size as int), offset, size, d) == read_over(
                window(later, offset as int, size as int),
                offset,
                size,
                dirty_of(settled(v, ino), ino),
            )
        }),
{
    let d = dirty_of(v, ino);
    let later = applied(c, d);
    assert(dirty_of(settled(v, ino), ino) =~= Seq::empty());
    let sent = window(c, offset as int, size as int);
    let after = window(later, offset as int, size as int);
    assert(window(sent, 0, size as int) =~= sent);
    assert(window(after, 0, size as int) =~= after);
    law_direct_read_transparent(offset, size, c, d);
    law_direct_read_transparent(offset, size, later, Seq::empty());
}

/// Setting the size of a file whose writes are settled leaves nothing of what
/// it held: reads give what the host holds now, and other files stay as they
/// were.
pub proof fn law_truncate_keeps_coherent(
    v: CacheView,
    chunk_size: int,
    ino: Ino,
    now: Seq<u8>,
    other: Ino,
    c: Seq<u8>,
)
    requires
        coherent(v.chunks, chunk_size, other, c),
    ensures
        ({
            let t = truncated(settled(v, ino), chunk_size, ino);
            &&& coherent(t.chunks, chunk_size, ino, now)
            &&& other != ino ==> coherent(t.chunks, chunk_size, other, c)
            &&& dirty_of(t, ino).len() == 0
            &&& other != ino ==> dirty_of(t, other) == dirty_of(v, other)
        }),
{
    let t = truncated(settled(v, ino), chunk_size, ino);
    assert forall|k: u64| (#[trigger] kept(t.chunks, ino, k)) is Some implies kept(
        t.chunks,
        ino,
        k,
    )->0 == window(now, k * chunk_size, chunk_size) by {
        lemma_kept_dropped(v.chunks, of_inode(ino), ino, k);
    }
    assert forall|k: u64|
        other != ino && (#[trigger] kept(t.chunks, other, k)) is Some implies kept(
        t.chunks,
        other,
        k,
    )->0 == window(c, k * chunk_size, chunk_size) by {
        lemma_kept_dropped(v.chunks, of_inode(ino), other, k);
        assert(kept(v.chunks, other, k) == kept(t.chunks, other, k));
    }
}

/// A chunk that was invalidated, or is older than what was seen of its inode,
/// does not come back: after an invalidation under a generation, a fill with a
/// smaller one is discarded.
pub proof fn law_stale_fill_discarded(
    v: CacheView,
    config: ContentCacheConfig,
    ino: Ino,
    offset: u64,
    len: u64,
    generation_now: u64,
    idx: u64,
    data: Seq<u8>,
    g: u64,
)
    requires
        g < generation_now,
    ensures
        ({
            let p = PushView::InvalidateData { ino, offset, len, generation: generation_now };
            let w = pushed(v, config, p);
            with_chunk(w, config.max_bytes as int, ino, idx, data, g).chunks == w.chunks
        }),
{
}

/// Seen generations only go up with invalidations and fills.
pub proof fn law_seen_generation_grows(
    v: CacheView,
    config: ContentCacheConfig,
    p: PushView,
    ino: Ino,
)
    requires
        !(p is Resync),
    ensures
        generation(pushed(v, config, p).gens, ino) >= generation(v.gens, ino),
{
}

/// Whether a message brings a chunk that is older than what was seen of its
/// inode.
pub open spec fn late(v: CacheView, config: ContentCacheConfig, p: PushView) -> bool {
    p matches PushView::Prefill { ino, chunk_size, generation: g, .. } && chunk_size
        == config.chunk_size && generation(v.gens, ino) > g
}

/// The cache but for what it has counted.
pub open spec fn uncounted(v: CacheView, counts: CacheCounts) -> CacheView {
    CacheView { counts, ..v }
}

/// Messages of the host may arrive twice: the second changes nothing but, for a
/// chunk that comes too late, what is counted.
pub proof fn law_invalidation_idempotent(v: CacheView, config: ContentCacheConfig, p: PushView)
    ensures
        uncounted(pushed(pushed(v, config, p), config, p), v.counts) == uncounted(
            pushed(v, config, p),
            v.counts,
        ),
        !late(v, config, p) ==> pushed(pushed(v, config, p), config, p) == pushed(v, config, p),
{
    let once = pushed(v, config, p);
    let twice = pushed(once, config, p);
    match p {
        PushView::InvalidateAttr { ino } => {
            assert(twice.attrs =~= once.attrs);
        },
        PushView::InvalidateEntry { parent, name, .. } => {
            assert(twice.lookups =~= once.lookups);
        },
        PushView::InvalidateData { ino, offset, len, generation } => {
            law_invalidate_idempotent(v.chunks, config.chunk_size as int, ino, offset, len);
            assert(twice.attrs =~= once.attrs);
            assert(twice.gens =~= once.gens);
        },
        PushView::Resync { .. } => {},
        PushView::Prefill { ino, chunk_idx, chunk_size, data, generation: g } => {
            if chunk_size == config.chunk_size && generation(v.gens, ino) <= g {
                law_insert_idempotent(
                    v.chunks,
                    config.max_bytes as int,
                    ino,
                    chunk_idx,
                    data,
                    once.counts.content,
                );
                assert(twice.gens =~= once.gens);
            }
        },
    }
}

/// The host's word reaches the sprite: what was invalidated is not answered
/// from the cache, whatever the time, so that the host is asked again. After a
/// resync that holds of everything.
pub proof fn law_invalidated_asks_host(
    v: CacheView,
    config: ContentCacheConfig,
    p: PushView,
    now: u64,
    ino: Ino,
    parent: Ino,
    name: Seq<char>,
    idx: u64,
)
    ensures
        ({
            let w = pushed(v, config, p);
            match p {
                PushView::InvalidateAttr { ino: i } => i == ino ==> cached_attr(w, now, ino)
                    is None,
                PushView::InvalidateData { ino: i, len, .. } => i == ino ==> cached_attr(
                    w,
                    now,
                    ino,
                ) is None && (len == 0 ==> kept(w.chunks, ino, idx) is None),
                PushView::InvalidateEntry { parent: d, name: n, .. } => d == parent && n == name
                    ==> cached_lookup(w, now, parent, name) is None,
                PushView::Resync { .. } => cached_attr(w, now, ino) is None && cached_lookup(
                    w,
                    now,
                    parent,
                    name,
                ) is None && kept(w.chunks, ino, idx) is None,
                PushView::Prefill { .. } => true,
            }
        }),
{
    lemma_kept_dropped(v.chunks, of_inode(ino), ino, idx);
}

/// A lookup is answered from the cache for its time and no longer: a found
/// entry with what the host said, a missing one with `ENOENT`. Other failures
/// are not kept.
pub proof fn law_lookup_kept_for_a_time(
    v: CacheView,
    config: CacheConfig,
    asked: u64,
    parent: Ino,
    name: Seq<char>,
    r: Result<FileAttr, ClientError>,
    now: u64,
)
    ensures
        ({
            let w = lookup_answered(v, config, asked, parent, name, r);
            let hit = cached_lookup(w, now, parent, name);
            match r {
                Ok(_) => hit == (if now < expiry(asked, config.lookup_ttl) {
                    Some(r)
                } else {
                    None
                }),
                Err(e) => if e == ClientError::Errno(ENOENT) {
                    hit == (if now < expiry(asked, config.negative_ttl) {
                        Some(r)
                    } else {
                        None
                    })
                } else {
                    hit == cached_lookup(v, now, parent, name)
                },
            }
        }),
{
}

/// What the cache holds of a lookup stays through everything that does not
/// touch the entry: messages on other things, writes, and attributes that were
/// learned.
pub proof fn law_lookup_undisturbed(
    v: CacheView,
    config: CacheConfig,
    p: PushView,
    now: u64,
    parent: Ino,
    name: Seq<char>,
    ino: Ino,
    handle: u64,
    offset: u64,
    data: Seq<u8>,
    attr: FileAttr,
    at: u64,
)
    ensures
        ({
            let touches = match p {
                PushView::InvalidateEntry { parent: d, name: n, .. } => d == parent && n == name,
                PushView::Resync { .. } => true,
                _ => false,
            };
            !touches ==> cached_lookup(pushed(v, config.content, p), now, parent, name)
                == cached_lookup(v, now, parent, name)
        }),
        cached_lookup(
            written(v, config.content.chunk_size as int, ino, handle, offset, data),
            now,
            parent,
            name,
        ) == cached_lookup(v, now, parent, name),
        cached_lookup(with_attr(v, config, at, ino, attr), now, parent, name) == cached_lookup(
            v,
            now,
            parent,
            name,
        ),
{
}

/// What remains of the answers to a number of writes.
pub open spec fn after_answers(
    known: Option<ClientError>,
    answers: Seq<Result<u32, ClientError>>,
) -> Option<ClientError>
    decreases answers.len(),
{
    if answers.len() == 0 {
        known
    } else {
        first_error(after_answers(known, answers.drop_last()), answers.last())
    }
}

/// No write is lost silently: a drain reports success only if the host took
/// every write since the last one, and otherwise the first failure.
pub proof fn law_failed_write_surfaces(answers: Seq<Result<u32, ClientError>>)
    ensures
        match after_answers(None, answers) {
            None => forall|i: int| 0 <= i < answers.len() ==> (#[trigger] answers[i]) is Ok,
            Some(e) => exists|i: int|
                0 <= i < answers.len() && #[trigger] answers[i] == Err::<u32, _>(e) && (forall|
                    j: int,
                |
                    0 <= j < i ==> (#[trigger] answers[j]) is Ok),
        },
    decreases answers.len(),
{
    if answers.len() > 0 {
        let before = answers.drop_last();
        law_failed_write_surfaces(before);
        match after_answers(None, before) {
            None => {
                assert forall|i: int| 0 <= i < before.len() implies (#[trigger] answers[i]) is Ok by {
                    assert(answers[i] == before[i]);
                }
                assert(answers[answers.len() - 1] == answers.last());
            },
            Some(e) => {
                let i = choose|i: int|
                    0 <= i < before.len() && #[trigger] before[i] == Err::<u32, _>(e) && (forall|
                        j: int,
                    |
                        0 <= j < i ==> (#[trigger] before[j]) is Ok);
                assert(answers[i] == before[i]);
                assert forall|j: int| 0 <= j < i implies (#[trigger] answers[j]) is Ok by {
                    assert(answers[j] == before[j]);
                }
            },
        }
    }
}

/// Messages of the host leave the buffered writes alone.
pub proof fn law_push_keeps_writes(v: CacheView, config: ContentCacheConfig, p: PushView)
    ensures
        pushed(v, config, p).wb == v.wb,
{
}

/// The cache after messages of the host, in order.
pub open spec fn all_pushed(
    v: CacheView,
    config: ContentCacheConfig,
    messages: Seq<PushView>,
) -> CacheView
    decreases messages.len(),
{
    if messages.len() == 0 {
        v
    } else {
        pushed(all_pushed(v, config, messages.drop_last()), config, messages.last())
    }
}

/// Whether nothing is left in the cache of what a message invalidates.
pub open spec fn obeyed(v: CacheView, p: PushView) -> bool {
    match p {
        PushView::InvalidateAttr { ino } => !v.attrs.dom().contains(ino),
        PushView::InvalidateData { ino, len, .. } => !v.attrs.dom().contains(ino) && (len == 0
            ==> forall|idx: u64| (#[trigger] kept(v.chunks, ino, idx)) is None),
        PushView::InvalidateEntry { parent, name, .. } => !v.lookups.dom().contains((parent, name)),
        PushView::Resync { .. } => {
            &&& forall|ino: Ino| !#[trigger] v.attrs.dom().contains(ino)
            &&& forall|key: (Ino, Seq<char>)| !#[trigger] v.lookups.dom().contains(key)
            &&& v.chunks.len() == 0
        },
        PushView::Prefill { .. } => true,
    }
}

proof fn lemma_obeyed(v: CacheView, config: ContentCacheConfig, p: PushView)
    ensures
        obeyed(pushed(v, config, p), p),
{
    if let PushView::InvalidateData { ino, len, .. } = p {
        if len == 0 {
            let w = pushed(v, config, p);
            assert forall|idx: u64| (#[trigger] kept(w.chunks, ino, idx)) is None by {
                lemma_kept_dropped(v.chunks, of_inode(ino), ino, idx);
            }
        }
    }
}

/// What is not in the cache does not come back with a message that brings no
/// content.
proof fn lemma_stays_obeyed(
    v: CacheView,
    config: ContentCacheConfig,
    p: PushView,
    earlier: PushView,
)
    requires
        !(p is Prefill),
        obeyed(v, earlier),
    ensures
        obeyed(pushed(v, config, p), earlier),
{
    let w = pushed(v, config, p);
    if let PushView::InvalidateData { ino: gone, offset, len, .. } = p {
        let cs = config.chunk_size as int;
        let f = if len == 0 {
            of_inode(gone)
        } else {
            of_range(gone, cs, offset as int, len as int)
        };
        lemma_dropped(v.chunks, f);
        assert forall|ino: Ino, idx: u64|
            kept(v.chunks, ino, idx) is None implies (#[trigger] kept(w.chunks, ino, idx))
            is None by {
            lemma_kept_dropped(v.chunks, f, ino, idx);
        }
    }
    if let PushView::InvalidateData { ino, len, .. } = earlier {
        if len == 0 {
            assert forall|idx: u64| (#[trigger] kept(w.chunks, ino, idx)) is None by {
                assert(kept(v.chunks, ino, idx) is None);
            }
        }
    }
}

/// Every message is obeyed, whatever other messages come with it.
proof fn lemma_all_obeyed(
    v: CacheView,
    config: ContentCacheConfig,
    messages: Seq<PushView>,
    k: int,
)
    requires
        0 <= k < messages.len(),
        forall|i: int| 0 <= i < messages.len() ==> !((#[trigger] messages[i]) is Prefill),
    ensures
        obeyed(all_pushed(v, config, messages), messages[k]),
    decreases messages.len(),
{
    let before = messages.drop_last();
    let mid = all_pushed(v, config, before);
    assert(messages[messages.len() - 1] == messages.last());
    if k == messages.len() - 1 {
        lemma_obeyed(mid, config, messages.last());
    } else {
        assert forall|i: int| 0 <= i < before.len() implies !((#[trigger] before[i])
            is Prefill) by {
            assert(before[i] == messages[i]);
        }
        lemma_all_obeyed(v, config, before, k);
        assert(before[k] == messages[k]);
        lemma_stays_obeyed(mid, config, messages.last(), messages[k]);
    }
}

/// What a message must say about a path under a rule.
pub open spec fn tells(
    p: PushView,
    table: Map<Ino, Seq<Comp>>,
    root: Seq<Comp>,
    r: Rule,
    abs: Seq<Comp>,
) -> bool {
    match r {
        Rule::Entry => match parent_entry(table, root, abs) {
            Some((parent, name)) => p matches PushView::InvalidateEntry { parent: d, name: n, .. }
                && d == parent && n == name,
            None => true,
        },
        _ => match known_ino(table, root, abs) {
            Some(ino) => p matches PushView::InvalidateData { ino: i, len, .. } && i == ino && len
                == 0,
            None => true,
        },
    }
}

/// Whether a path is known well enough for a rule to say anything of it.
pub open spec fn concerns(
    table: Map<Ino, Seq<Comp>>,
    root: Seq<Comp>,
    r: Rule,
    abs: Seq<Comp>,
) -> bool {
    if r is Entry {
        parent_entry(table, root, abs) is Some
    } else {
        known_ino(table, root, abs) is Some
    }
}

proof fn lemma_event_tells(
    table: Map<Ino, Seq<Comp>>,
    gens: Map<Ino, u64>,
    root: Seq<Comp>,
    r: Rule,
    paths: Seq<Seq<Comp>>,
    i: int,
) -> (k: int)
    requires
        0 <= i < paths.len(),
        !(r is Everything),
        concerns(table, root, r, paths[i]),
    ensures
        0 <= k < paths_pushes(table, gens, root, r, paths).1.len(),
        tells(paths_pushes(table, gens, root, r, paths).1[k], table, root, r, paths[i]),
    decreases paths.len(),
{
    let before = paths.drop_last();
    let (g, a) = paths_pushes(table, gens, root, r, before);
    let b = path_pushes(table, g, root, r, paths.last()).1;
    assert(paths_pushes(table, gens, root, r, paths).1 =~= a + b);
    if i == paths.len() - 1 {
        let k = a.len() + b.len() - 1;
        assert((a + b)[k] == b[b.len() - 1]);
        k
    } else {
        let k = lemma_event_tells(table, gens, root, r, before, i);
        assert((a + b)[k] == a[k]);
        k
    }
}

proof fn lemma_event_brings_nothing(
    table: Map<Ino, Seq<Comp>>,
    gens: Map<Ino, u64>,
    root: Seq<Comp>,
    r: Rule,
    paths: Seq<Seq<Comp>>,
)
    ensures
        forall|k: int|
            0 <= k < paths_pushes(table, gens, root, r, paths).1.len() ==> !((
            #[trigger] paths_pushes(table, gens, root, r, paths).1[k]) is Prefill),
    decreases paths.len(),
{
    if paths.len() > 0 {
        lemma_event_brings_nothing(table, gens, root, r, paths.drop_last());
    }
}

/// What changes on the host reaches the sprite: once the messages for an event
/// have arrived, nothing that the event put in doubt is answered from the
/// cache. Of a file that was modified neither attributes nor content, of a directory
/// that gained or lost an entry not that entry.
pub proof fn law_change_reaches_sprite(
    v: CacheView,
    config: ContentCacheConfig,
    table: Map<Ino, Seq<Comp>>,
    gens: Map<Ino, u64>,
    root: Seq<Comp>,
    kind: EventKind,
    paths: Seq<Seq<Comp>>,
    i: int,
    now: u64,
    idx: u64,
)
    requires
        0 <= i < paths.len(),
    ensures
        ({
            let w = all_pushed(v, config, event_pushes(table, gens, root, kind, paths).1);
            match rule(kind) {
                Rule::Entry => parent_entry(table, root, paths[i]) matches Some((parent, name))
                    ==> cached_lookup(w, now, parent, name) is None,
                Rule::Everything => forall|ino: Ino, parent: Ino, name: Seq<char>|
                    (#[trigger] cached_attr(w, now, ino)) is None && (#[trigger] cached_lookup(
                        w,
                        now,
                        parent,
                        name,
                    )) is None && kept(w.chunks, ino, idx) is None,
                _ => known_ino(table, root, paths[i]) matches Some(ino) ==> cached_attr(
                    w,
                    now,
                    ino,
                ) is None && kept(w.chunks, ino, idx) is None,
            }
        }),
{
    let r = rule(kind);
    let messages = event_pushes(table, gens, root, kind, paths).1;
    if r is Everything {
        lemma_all_obeyed(v, config, messages, 0);
        assert(messages[0] is Resync);
    } else if concerns(table, root, r, paths[i]) {
        lemma_event_brings_nothing(table, gens, root, r, paths);
        let k = lemma_event_tells(table, gens, root, r, paths, i);
        lemma_all_obeyed(v, config, messages, k);
    }
}

} // verus!
