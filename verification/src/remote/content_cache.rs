//! Chunked content cache.
//!
//! Files are split into chunks of a fixed size. A chunk is kept under its
//! inode and index; when the bytes kept exceed the cap, the least recently
//! used chunks go until the rest fits. The chunks are held in the order of
//! their last use, oldest first.

use bytes::Bytes;
use vstd::prelude::*;

use crate::payload::{bytes_clone, bytes_contents, bytes_slice};
use crate::protocol::Ino;

verus! {

pub const DEFAULT_CHUNK_SIZE: usize = 16 * 1024;

pub const DEFAULT_MAX_BYTES: usize = 100 * 1024 * 1024;

#[derive(Debug, Clone, Copy, PartialEq, Eq, Structural)]
pub struct ContentCacheConfig {
    pub chunk_size: usize,
    /// The most bytes that are kept. A chunk costs its own length.
    pub max_bytes: usize,
}

impl Default for ContentCacheConfig {
    fn default() -> (r: Self)
        ensures
            r.chunk_size == DEFAULT_CHUNK_SIZE,
            r.max_bytes == DEFAULT_MAX_BYTES,
    {
        ContentCacheConfig { chunk_size: DEFAULT_CHUNK_SIZE, max_bytes: DEFAULT_MAX_BYTES }
    }
}

struct Chunk {
    ino: Ino,
    idx: u64,
    data: Bytes,
}

/// A chunk that is kept.
pub struct ChunkView {
    pub ino: Ino,
    pub idx: u64,
    pub data: Seq<u8>,
}

impl ChunkView {
    pub open spec fn is(self, ino: Ino, idx: u64) -> bool {
        self.ino == ino && self.idx == idx
    }
}

spec fn chunk_views(v: Seq<Chunk>) -> Seq<ChunkView> {
    Seq::new(
        v.len(),
        |i: int| ChunkView { ino: v[i].ino, idx: v[i].idx, data: bytes_contents(v[i].data) },
    )
}

/// The bytes that chunks hold together.
pub open spec fn total(s: Seq<ChunkView>) -> nat
    decreases s.len(),
{
    if s.len() == 0 {
        0
    } else {
        total(s.drop_last()) + s.last().data.len()
    }
}

/// The content of a chunk, where it is kept.
pub open spec fn kept(s: Seq<ChunkView>, ino: Ino, idx: u64) -> Option<Seq<u8>>
    decreases s.len(),
{
    if s.len() == 0 {
        None
    } else if s.last().is(ino, idx) {
        Some(s.last().data)
    } else {
        kept(s.drop_last(), ino, idx)
    }
}

/// The chunks that do not satisfy `drop`, in order.
pub open spec fn dropped(s: Seq<ChunkView>, drop: spec_fn(ChunkView) -> bool) -> Seq<ChunkView>
    decreases s.len(),
{
    if s.len() == 0 {
        s
    } else {
        let before = dropped(s.drop_last(), drop);
        if drop(s.last()) {
            before
        } else {
            before.push(s.last())
        }
    }
}

/// Whether a chunk is the one of that key.
pub open spec fn the_chunk(ino: Ino, idx: u64) -> spec_fn(ChunkView) -> bool {
    |c: ChunkView| c.is(ino, idx)
}

/// Whether a chunk is one of the inode.
pub open spec fn of_inode(ino: Ino) -> spec_fn(ChunkView) -> bool {
    |c: ChunkView| c.ino == ino
}

/// Whether a chunk is one of the inode and meets a byte range.
pub open spec fn of_range(ino: Ino, chunk_size: int, offset: int, len: int) -> spec_fn(
    ChunkView,
) -> bool {
    |c: ChunkView| c.ino == ino && meets(c.idx, chunk_size, offset, len)
}

/// Whether a chunk is one of the inode and a write changes it: it meets the
/// range, or it is short, so that the file ended in it, and the write lies
/// behind it.
pub open spec fn of_write(ino: Ino, chunk_size: int, offset: int, len: int) -> spec_fn(
    ChunkView,
) -> bool {
    |c: ChunkView|
        c.ino == ino && (meets(c.idx, chunk_size, offset, len) || (c.data.len() < chunk_size
            && lies_before(c.idx, chunk_size, offset)))
}

/// The chunks without one of them.
pub open spec fn without_chunk(s: Seq<ChunkView>, ino: Ino, idx: u64) -> Seq<ChunkView> {
    dropped(s, the_chunk(ino, idx))
}

/// The chunks after the oldest are dropped until at most `max` bytes are left.
pub open spec fn fitted(s: Seq<ChunkView>, max: int) -> Seq<ChunkView>
    decreases s.len(),
{
    if s.len() == 0 || total(s) <= max {
        s
    } else {
        fitted(s.drop_first(), max)
    }
}

/// The chunks after one is put in: an older copy goes, the new one is the most
/// recently used, and the oldest make room. A chunk above the cap is refused.
pub open spec fn inserted(
    s: Seq<ChunkView>,
    max: int,
    ino: Ino,
    idx: u64,
    data: Seq<u8>,
) -> Seq<ChunkView> {
    if data.len() > max {
        s
    } else {
        fitted(without_chunk(s, ino, idx).push(ChunkView { ino, idx, data }), max)
    }
}

/// The chunks after one is used: it becomes the most recently used.
pub open spec fn touched(s: Seq<ChunkView>, ino: Ino, idx: u64) -> Seq<ChunkView> {
    match kept(s, ino, idx) {
        Some(data) => without_chunk(s, ino, idx).push(ChunkView { ino, idx, data }),
        None => s,
    }
}

/// Whether chunk `idx` meets the byte range of `len` bytes from `offset` on.
pub open spec fn meets(idx: u64, chunk_size: int, offset: int, len: int) -> bool {
    let end = if offset + len > u64::MAX {
        u64::MAX as int
    } else {
        offset + len
    };
    offset < (idx + 1) * chunk_size && idx * chunk_size < end
}

/// Whether chunk `idx` ends at or before `offset`.
pub open spec fn lies_before(idx: u64, chunk_size: int, offset: int) -> bool {
    (idx + 1) * chunk_size <= offset
}

/// The chunks after a byte range of an inode is invalidated; `len == 0` is the
/// whole inode.
pub open spec fn invalidated(
    s: Seq<ChunkView>,
    chunk_size: int,
    ino: Ino,
    offset: u64,
    len: u64,
) -> Seq<ChunkView> {
    if len == 0 {
        dropped(s, of_inode(ino))
    } else {
        dropped(s, of_range(ino, chunk_size, offset as int, len as int))
    }
}

/// The chunks after `len` bytes of an inode are written at `offset`. An empty
/// write drops the whole inode.
pub open spec fn overwritten(
    s: Seq<ChunkView>,
    chunk_size: int,
    ino: Ino,
    offset: u64,
    len: u64,
) -> Seq<ChunkView> {
    if len == 0 {
        dropped(s, of_inode(ino))
    } else {
        dropped(s, of_write(ino, chunk_size, offset as int, len as int))
    }
}

/// A counter one further, or at its largest value.
pub open spec fn counted(n: u64) -> u64 {
    if n < u64::MAX {
        (n + 1) as u64
    } else {
        n
    }
}

/// A counter further by `k`, or at its largest value.
pub open spec fn counted_by(n: u64, k: int) -> u64 {
    if n + k <= u64::MAX {
        (n + k) as u64
    } else {
        u64::MAX
    }
}

pub struct ContentCache {
    chunks: Vec<Chunk>,
    bytes_used: usize,
    config: ContentCacheConfig,
    pub hits: u64,
    pub misses: u64,
    pub evictions: u64,
    pub bytes_evicted: u64,
}

impl View for ContentCache {
    type V = Seq<ChunkView>;

    closed spec fn view(&self) -> Seq<ChunkView> {
        chunk_views(self.chunks@)
    }
}

/// What the cache has counted: hits, misses, chunks evicted and their bytes.
pub struct Counts {
    pub hits: u64,
    pub misses: u64,
    pub evictions: u64,
    pub bytes_evicted: u64,
}

/// Whether no chunk is kept twice.
pub open spec fn distinct(s: Seq<ChunkView>) -> bool {
    forall|i: int, j: int|
        #![trigger s[i], s[j]]
        0 <= i < j < s.len() ==> !s[i].is(s[j].ino, s[j].idx)
}

/// Dropping chunks leaves those that are not dropped, each as it was.
pub proof fn lemma_dropped(s: Seq<ChunkView>, drop: spec_fn(ChunkView) -> bool)
    ensures
        total(dropped(s, drop)) <= total(s),
        dropped(s, drop).len() <= s.len(),
        forall|i: int|
            0 <= i < dropped(s, drop).len() ==> s.contains(#[trigger] dropped(s, drop)[i]) && !drop(
                dropped(s, drop)[i],
            ),
        forall|i: int|
            #![trigger s[i]]
            0 <= i < s.len() && !drop(s[i]) ==> dropped(s, drop).contains(s[i]),
        distinct(s) ==> distinct(dropped(s, drop)),
        (forall|i: int| 0 <= i < s.len() ==> !drop(#[trigger] s[i])) ==> dropped(s, drop) == s,
    decreases s.len(),
{
    if s.len() > 0 {
        let before = s.drop_last();
        let last = s.last();
        let d = dropped(before, drop);
        lemma_dropped(before, drop);
        let r = dropped(s, drop);
        assert(s[s.len() - 1] == last);
        if distinct(s) {
            assert forall|i: int, j: int|
                #![trigger before[i], before[j]]
                0 <= i < j < before.len() implies !before[i].is(before[j].ino, before[j].idx) by {
                assert(before[i] == s[i] && before[j] == s[j]);
            }
        }
        assert forall|i: int| 0 <= i < r.len() implies s.contains(#[trigger] r[i]) && !drop(r[i]) by {
            if i < d.len() {
                assert(r[i] == d[i]);
                let k = choose|k: int| 0 <= k < before.len() && before[k] == d[i];
                assert(s[k] == d[i]);
            } else {
                assert(s[s.len() - 1] == r[i]);
            }
        }
        assert forall|i: int|
            #![trigger s[i]]
            0 <= i < s.len() && !drop(s[i]) implies r.contains(s[i]) by {
            if i < before.len() {
                assert(before[i] == s[i]);
                let k = choose|k: int| 0 <= k < d.len() && d[k] == s[i];
                assert(r[k] == s[i]);
            } else {
                assert(r[r.len() - 1] == s[i]);
            }
        }
        if distinct(s) {
            assert forall|i: int, j: int|
                #![trigger r[i], r[j]]
                0 <= i < j < r.len() implies !r[i].is(r[j].ino, r[j].idx) by {
                if j < d.len() {
                    assert(r[i] == d[i] && r[j] == d[j]);
                } else {
                    assert(r[i] == d[i]);
                    let k = choose|k: int| 0 <= k < before.len() && before[k] == d[i];
                    assert(s[k] == d[i]);
                    assert(s[s.len() - 1] == r[j]);
                }
            }
        }
        assert(r.drop_last() =~= d || r == d);
        if forall|i: int| 0 <= i < s.len() ==> !drop(#[trigger] s[i]) {
            assert forall|i: int| 0 <= i < before.len() implies !drop(#[trigger] before[i]) by {
                assert(s[i] == before[i]);
            }
            assert(r =~= s);
        }
    }
}

/// What is kept is one of the chunks, and the only one of its key.
proof fn lemma_kept(s: Seq<ChunkView>, ino: Ino, idx: u64)
    ensures
        kept(s, ino, idx) matches Some(data) ==> s.contains(ChunkView { ino, idx, data }),
        kept(s, ino, idx) is None ==> forall|i: int|
            0 <= i < s.len() ==> !(#[trigger] s[i]).is(ino, idx),
        distinct(s) ==> forall|i: int|
            #![trigger s[i]]
            0 <= i < s.len() && s[i].is(ino, idx) ==> kept(s, ino, idx) == Some(s[i].data),
    decreases s.len(),
{
    if s.len() > 0 {
        let before = s.drop_last();
        lemma_kept(before, ino, idx);
        assert(s[s.len() - 1] == s.last());
        if distinct(s) {
            assert forall|i: int, j: int|
                #![trigger before[i], before[j]]
                0 <= i < j < before.len() implies !before[i].is(before[j].ino, before[j].idx) by {
                assert(before[i] == s[i] && before[j] == s[j]);
            }
        }
        if s.last().is(ino, idx) {
            if distinct(s) {
                assert forall|i: int|
                    #![trigger s[i]]
                    0 <= i < s.len() && s[i].is(ino, idx) implies kept(s, ino, idx) == Some(
                    s[i].data,
                ) by {
                    if i < s.len() - 1 {
                        assert(!s[i].is(s[s.len() - 1].ino, s[s.len() - 1].idx));
                    }
                }
            }
        } else {
            if let Some(data) = kept(before, ino, idx) {
                let c = ChunkView { ino, idx, data };
                let k = choose|k: int| 0 <= k < before.len() && before[k] == c;
                assert(s[k] == c);
            }
            assert forall|i: int| 0 <= i < s.len() && kept(s, ino, idx) is None implies !(
            #[trigger] s[i]).is(ino, idx) by {
                if i < before.len() {
                    assert(before[i] == s[i]);
                }
            }
            if distinct(s) {
                assert forall|i: int|
                    #![trigger s[i]]
                    0 <= i < s.len() && s[i].is(ino, idx) implies kept(s, ino, idx) == Some(
                    s[i].data,
                ) by {
                    if i < before.len() {
                        assert(before[i] == s[i]);
                    }
                }
            }
        }
    }
}

proof fn lemma_total_remove(s: Seq<ChunkView>, i: int)
    requires
        0 <= i < s.len(),
    ensures
        total(s.remove(i)) + s[i].data.len() == total(s),
    decreases s.len(),
{
    if i == s.len() - 1 {
        assert(s.remove(i) =~= s.drop_last());
    } else {
        lemma_total_remove(s.drop_last(), i);
        assert(s.remove(i).drop_last() =~= s.drop_last().remove(i));
        assert(s.remove(i).last() == s.last());
    }
}

proof fn lemma_total_push(s: Seq<ChunkView>, c: ChunkView)
    ensures
        total(s.push(c)) == total(s) + c.data.len(),
{
    assert(s.push(c).drop_last() =~= s);
}

/// In a sequence without repeats, dropping one key is removing it.
proof fn lemma_without_at(s: Seq<ChunkView>, ino: Ino, idx: u64, i: int)
    requires
        distinct(s),
        0 <= i < s.len(),
        s[i].is(ino, idx),
    ensures
        without_chunk(s, ino, idx) == s.remove(i),
    decreases s.len(),
{
    let drop = the_chunk(ino, idx);
    let before = s.drop_last();
    assert forall|a: int, b: int|
        #![trigger before[a], before[b]]
        0 <= a < b < before.len() implies !before[a].is(before[b].ino, before[b].idx) by {
        assert(before[a] == s[a] && before[b] == s[b]);
    }
    if i == s.len() - 1 {
        assert forall|k: int| 0 <= k < before.len() implies !drop(#[trigger] before[k]) by {
            assert(before[k] == s[k]);
            assert(!s[k].is(s[i].ino, s[i].idx));
        }
        lemma_dropped(before, drop);
        assert(s.remove(i) =~= before);
    } else {
        assert(before[i] == s[i]);
        lemma_without_at(before, ino, idx, i);
        assert(s[s.len() - 1] == s.last());
        assert(!s[i].is(s.last().ino, s.last().idx));
        assert(before.remove(i).push(s.last()) =~= s.remove(i));
    }
}

proof fn lemma_total_drop_first(s: Seq<ChunkView>)
    requires
        s.len() > 0,
    ensures
        total(s.drop_first()) + s[0].data.len() == total(s),
{
    assert(s.drop_first() =~= s.remove(0));
    lemma_total_remove(s, 0);
}

fn count(n: u64) -> (r: u64)
    ensures
        r == counted(n),
{
    if n < u64::MAX {
        n + 1
    } else {
        n
    }
}

impl ContentCache {
    /// What was counted so far.
    pub closed spec fn counts(&self) -> Counts {
        Counts {
            hits: self.hits,
            misses: self.misses,
            evictions: self.evictions,
            bytes_evicted: self.bytes_evicted,
        }
    }

    /// How the cache is bounded.
    pub closed spec fn bounds(&self) -> ContentCacheConfig {
        self.config
    }

    /// No chunk is kept twice, the bytes are counted right, and they stay
    /// within the cap.
    pub closed spec fn wf(&self) -> bool {
        &&& distinct(self@)
        &&& self.bytes_used == total(self@)
        &&& total(self@) <= self.config.max_bytes
    }

    /// A cache keeps no chunk twice, and never more bytes than its cap.
    pub proof fn law_bounded(&self)
        requires
            self.wf(),
        ensures
            distinct(self@),
            total(self@) <= self.bounds().max_bytes,
    {
    }

    pub fn new(config: ContentCacheConfig) -> (r: Self)
        ensures
            r.wf(),
            r@ == Seq::<ChunkView>::empty(),
            r.bounds() == config,
            r.counts() == (Counts { hits: 0, misses: 0, evictions: 0, bytes_evicted: 0 }),
    {
        let r = ContentCache {
            chunks: Vec::new(),
            bytes_used: 0,
            config,
            hits: 0,
            misses: 0,
            evictions: 0,
            bytes_evicted: 0,
        };
        assert(r@ =~= Seq::<ChunkView>::empty());
        r
    }

    pub fn chunk_size(&self) -> (n: usize)
        ensures
            n == self.bounds().chunk_size,
    {
        self.config.chunk_size
    }

    pub fn config_snapshot(&self) -> (r: ContentCacheConfig)
        ensures
            r == self.bounds(),
    {
        self.config
    }

    /// The bytes kept, over all chunks.
    pub fn bytes_used(&self) -> (n: usize)
        requires
            self.wf(),
        ensures
            n == total(self@),
            n <= self.bounds().max_bytes,
    {
        self.bytes_used
    }

    fn position(&self, ino: Ino, chunk_idx: u64) -> (r: Option<usize>)
        requires
            distinct(self@),
        ensures
            r is Some <==> kept(self@, ino, chunk_idx) is Some,
            r matches Some(i) ==> {
                &&& i < self.chunks@.len()
                &&& self@[i as int].is(ino, chunk_idx)
                &&& kept(self@, ino, chunk_idx) == Some(self@[i as int].data)
                &&& without_chunk(self@, ino, chunk_idx) == self@.remove(i as int)
            },
            r is None ==> without_chunk(self@, ino, chunk_idx) == self@,
    {
        proof {
            lemma_kept(self@, ino, chunk_idx);
        }
        let mut i: usize = 0;
        while i < self.chunks.len()
            invariant
                i <= self.chunks@.len(),
                distinct(self@),
                forall|j: int|
                    #![trigger self@[j]]
                    0 <= j < self@.len() && self@[j].is(ino, chunk_idx) ==> kept(
                        self@,
                        ino,
                        chunk_idx,
                    ) == Some(self@[j].data),
                forall|j: int| 0 <= j < i ==> !(#[trigger] self@[j]).is(ino, chunk_idx),
            decreases self.chunks@.len() - i,
        {
            if self.chunks[i].ino == ino && self.chunks[i].idx == chunk_idx {
                proof {
                    assert(self@[i as int].is(ino, chunk_idx));
                    lemma_without_at(self@, ino, chunk_idx, i as int);
                }
                return Some(i);
            }
            i += 1;
        }
        proof {
            lemma_dropped(self@, the_chunk(ino, chunk_idx));
            if let Some(data) = kept(self@, ino, chunk_idx) {
                let c = ChunkView { ino, idx: chunk_idx, data };
                let k = choose|k: int| 0 <= k < self@.len() && self@[k] == c;
                assert(self@[k].is(ino, chunk_idx));
            }
        }
        None
    }

    /// The content of a chunk, where it is kept. A hit makes the chunk the
    /// most recently used.
    pub fn get(&mut self, ino: Ino, chunk_idx: u64) -> (r: Option<Bytes>)
        requires
            old(self).wf(),
        ensures
            final(self).wf(),
            final(self).bounds() == old(self).bounds(),
            r is Some <==> kept(old(self)@, ino, chunk_idx) is Some,
            r matches Some(b) ==> kept(old(self)@, ino, chunk_idx) == Some(bytes_contents(b)),
            final(self)@ == touched(old(self)@, ino, chunk_idx),
            final(self).counts() == (if r is Some {
                Counts { hits: counted(old(self).counts().hits), ..old(self).counts() }
            } else {
                Counts { misses: counted(old(self).counts().misses), ..old(self).counts() }
            }),
    {
        let ghost s = self@;
        match self.position(ino, chunk_idx) {
            None => {
                self.misses = count(self.misses);
                None
            },
            Some(i) => {
                self.hits = count(self.hits);
                let c: Chunk = self.chunks.remove(i);
                let data: Bytes = bytes_clone(&c.data);
                self.chunks.push(c);
                proof {
                    let v = s[i as int];
                    assert(self@ =~= s.remove(i as int).push(v));
                    lemma_total_remove(s, i as int);
                    lemma_total_push(s.remove(i as int), v);
                    lemma_reinsert_distinct(s, i as int, v);
                }
                Some(data)
            },
        }
    }

    /// Drop the oldest chunks until at most `max` bytes are kept.
    fn evict_to_fit(&mut self, max: usize)
        requires
            distinct(old(self)@),
            old(self).bytes_used == total(old(self)@),
        ensures
            distinct(final(self)@),
            final(self).bytes_used == total(final(self)@),
            final(self)@ == fitted(old(self)@, max as int),
            total(final(self)@) <= max,
            final(self).bounds() == old(self).bounds(),
            final(self).counts() == (Counts {
                evictions: counted_by(
                    old(self).counts().evictions,
                    old(self)@.len() - final(self)@.len(),
                ),
                bytes_evicted: counted_by(
                    old(self).counts().bytes_evicted,
                    total(old(self)@) - total(final(self)@),
                ),
                ..old(self).counts()
            }),
    {
        while self.bytes_used > max
            invariant
                distinct(self@),
                self.bytes_used == total(self@),
                fitted(self@, max as int) == fitted(old(self)@, max as int),
                self.bounds() == old(self).bounds(),
                self@.len() <= old(self)@.len(),
                total(self@) <= total(old(self)@),
                self.counts() == (Counts {
                    evictions: counted_by(
                        old(self).counts().evictions,
                        old(self)@.len() - self@.len(),
                    ),
                    bytes_evicted: counted_by(
                        old(self).counts().bytes_evicted,
                        total(old(self)@) - total(self@),
                    ),
                    ..old(self).counts()
                }),
            decreases self.chunks@.len(),
        {
            let ghost s = self@;
            proof {
                if s.len() == 0 {
                    assert(total(s) == 0);
                }
            }
            let c: Chunk = self.chunks.remove(0);
            let n: usize = bytes_slice(&c.data).len();
            proof {
                lemma_total_drop_first(s);
                assert(self@ =~= s.drop_first());
                assert forall|a: int, b: int|
                    #![trigger self@[a], self@[b]]
                    0 <= a < b < self@.len() implies !self@[a].is(self@[b].ino, self@[b].idx) by {
                    assert(self@[a] == s[a + 1] && self@[b] == s[b + 1]);
                }
            }
            self.evictions = count(self.evictions);
            self.bytes_evicted = if self.bytes_evicted <= u64::MAX - n as u64 {
                self.bytes_evicted + n as u64
            } else {
                u64::MAX
            };
            self.bytes_used = self.bytes_used - n;
        }
    }

    /// Keep a chunk, as the most recently used; the oldest make room. A chunk
    /// above the whole cap is refused.
    pub fn insert(&mut self, ino: Ino, chunk_idx: u64, data: Bytes)
        requires
            old(self).wf(),
        ensures
            final(self).wf(),
            final(self).bounds() == old(self).bounds(),
            final(self)@ == inserted(
                old(self)@,
                old(self).bounds().max_bytes as int,
                ino,
                chunk_idx,
                bytes_contents(data),
            ),
            final(self).counts() == evicted_counts(
                old(self)@,
                old(self).bounds().max_bytes as int,
                ino,
                chunk_idx,
                bytes_contents(data),
                old(self).counts(),
            ),
    {
        let new_len: usize = bytes_slice(&data).len();
        let max: usize = self.config.max_bytes;
        if new_len > max {
            return ;
        }
        let ghost s = self@;
        let ghost rest = without_chunk(s, ino, chunk_idx);
        let ghost c = ChunkView { ino, idx: chunk_idx, data: bytes_contents(data) };
        match self.position(ino, chunk_idx) {
            None => {},
            Some(i) => {
                let gone: Chunk = self.chunks.remove(i);
                proof {
                    lemma_total_remove(s, i as int);
                    assert(self@ =~= s.remove(i as int));
                }
                self.bytes_used = self.bytes_used - bytes_slice(&gone.data).len();
            },
        }
        assert(self@ == rest);
        proof {
            lemma_dropped(s, the_chunk(ino, chunk_idx));
        }
        let ghost mid = self.counts();
        self.evict_to_fit(max - new_len);
        let ghost left = self@;
        proof {
            lemma_fitted_push(rest, max as int, c);
            lemma_fitted_suffix(rest, max - new_len);
            lemma_total_push(left, c);
            lemma_total_push(rest, c);
        }
        self.chunks.push(Chunk { ino, idx: chunk_idx, data });
        self.bytes_used = self.bytes_used + new_len;
        proof {
            assert(self@ =~= left.push(c));
            assert forall|a: int, b: int|
                #![trigger self@[a], self@[b]]
                0 <= a < b < self@.len() implies !self@[a].is(self@[b].ino, self@[b].idx) by {
                if b < left.len() {
                    assert(self@[a] == left[a] && self@[b] == left[b]);
                } else {
                    let k = rest.len() - left.len() + a;
                    assert(self@[a] == rest[k]);
                    assert(!rest[k].is(ino, chunk_idx));
                }
            }
        }
    }

    /// Drop the chunks of an inode: all, or those from `start` up to `end` and
    /// those before that are shorter than `full`.
    fn drop_where(&mut self, ino: Ino, all: bool, start: u64, end: u64, full: usize)
        requires
            old(self).wf(),
        ensures
            final(self).wf(),
            final(self).bounds() == old(self).bounds(),
            final(self).counts() == old(self).counts(),
            final(self)@ == dropped(old(self)@, of_indices(ino, all, start, end, full)),
    {
        let ghost s = self@;
        let ghost drop = of_indices(ino, all, start, end, full);
        proof {
            lemma_dropped(s, drop);
        }
        let mut keep: Vec<Chunk> = Vec::new();
        let mut freed: usize = 0;
        let n: usize = self.chunks.len();
        let mut i: usize = 0;
        let mut rest: Vec<Chunk> = Vec::new();
        std::mem::swap(&mut rest, &mut self.chunks);
        proof {
            assert(chunk_views(rest@) =~= s);
            assert(s.take(0) =~= Seq::empty());
            assert(chunk_views(keep@) =~= Seq::empty());
            assert(dropped(s.take(0), drop) =~= Seq::empty());
        }
        for c in it: rest
            invariant
                i == it.index(),
                n == s.len(),
                it.seq().len() == n,
                chunk_views(it.seq()) == s,
                chunk_views(keep@) == dropped(s.take(i as int), drop),
                freed + total(chunk_views(keep@)) == total(s.take(i as int)),
                total(s) <= usize::MAX,
                drop == of_indices(ino, all, start, end, full),
        {
            let ghost v = s[i as int];
            let ghost before = chunk_views(keep@);
            proof {
                assert(s.take(i + 1).drop_last() =~= s.take(i as int));
                assert(s.take(i + 1).last() == v);
                lemma_total_prefix(s, i + 1);
            }
            let len: usize = bytes_slice(&c.data).len();
            if c.ino == ino && (all || (start <= c.idx && c.idx < end) || (c.idx < start && len
                < full)) {
                freed = freed + len;
            } else {
                keep.push(c);
                proof {
                    assert(chunk_views(keep@) =~= before.push(v));
                    lemma_total_push(before, v);
                }
            }
            i = i + 1;
        }
        proof {
            assert(s.take(n as int) =~= s);
        }
        self.chunks = keep;
        self.bytes_used = self.bytes_used - freed;
    }

    /// Drop every chunk of an inode.
    pub fn invalidate_ino(&mut self, ino: Ino)
        requires
            old(self).wf(),
        ensures
            final(self).wf(),
            final(self).bounds() == old(self).bounds(),
            final(self).counts() == old(self).counts(),
            final(self)@ == invalidated(
                old(self)@,
                old(self).bounds().chunk_size as int,
                ino,
                0,
                0,
            ),
    {
        let ghost s = self@;
        self.drop_where(ino, true, 0, 0, 0);
        proof {
            lemma_dropped_same(s, of_indices(ino, true, 0, 0, 0), of_inode(ino));
        }
    }

    /// Drop the chunks that meet a byte range of an inode; `len == 0` is the
    /// whole inode.
    pub fn invalidate_range(&mut self, ino: Ino, offset: u64, len: u64)
        requires
            old(self).wf(),
            len > 0 ==> old(self).bounds().chunk_size > 0,
        ensures
            final(self).wf(),
            final(self).bounds() == old(self).bounds(),
            final(self).counts() == old(self).counts(),
            final(self)@ == invalidated(
                old(self)@,
                old(self).bounds().chunk_size as int,
                ino,
                offset,
                len,
            ),
    {
        if len == 0 {
            self.invalidate_ino(ino);
            return ;
        }
        let ghost s = self@;
        let (start_idx, end_idx): (u64, u64) = self.index_range(offset, len);
        self.drop_where(ino, false, start_idx, end_idx, 0);
        proof {
            let chunk_size = self.config.chunk_size;
            let f = of_indices(ino, false, start_idx, end_idx, 0);
            let g = of_range(ino, chunk_size as int, offset as int, len as int);
            assert forall|c: ChunkView| #[trigger] f(c) == g(c) by {
                assert((start_idx <= c.idx < end_idx) == meets(
                    c.idx,
                    chunk_size as int,
                    offset as int,
                    len as int,
                ));
            }
            lemma_dropped_same(s, f, g);
        }
    }

    /// The indices of the chunks that meet a byte range.
    fn index_range(&self, offset: u64, len: u64) -> (r: (u64, u64))
        requires
            self.bounds().chunk_size > 0,
        ensures
            forall|idx: u64|
                #![trigger meets(idx, self.bounds().chunk_size as int, offset as int, len as int)]
                (r.0 <= idx < r.1) == meets(
                    idx,
                    self.bounds().chunk_size as int,
                    offset as int,
                    len as int,
                ),
            forall|idx: u64|
                (idx < r.0) == #[trigger] lies_before(
                    idx,
                    self.bounds().chunk_size as int,
                    offset as int,
                ),
    {
        let chunk_size: u64 = self.config.chunk_size as u64;
        let start_idx: u64 = offset / chunk_size;
        let end_byte: u64 = if offset <= u64::MAX - len {
            offset + len
        } else {
            u64::MAX
        };
        let whole: u64 = end_byte / chunk_size;
        let end_idx: u64 = if end_byte % chunk_size == 0 {
            whole
        } else {
            proof {
                assert(whole < u64::MAX) by (nonlinear_arith)
                    requires
                        whole == end_byte / chunk_size,
                        end_byte % chunk_size != 0,
                        chunk_size > 0,
                        end_byte <= u64::MAX,
                ;
            }
            whole + 1
        };
        proof {
            let cs = self.bounds().chunk_size;
            assert forall|idx: u64|
                #![trigger meets(idx, cs as int, offset as int, len as int)]
                (start_idx <= idx < end_idx) == meets(idx, cs as int, offset as int, len as int) by {
                lemma_meets(idx, chunk_size, offset, end_byte, end_idx);
            }
            assert forall|idx: u64|
                (idx < start_idx) == #[trigger] lies_before(idx, cs as int, offset as int) by {
                lemma_meets(idx, chunk_size, offset, end_byte, end_idx);
            }
        }
        (start_idx, end_idx)
    }

    /// Drop the chunks that a write changes: those that meet its range, and a
    /// short chunk before it, since the file no longer ends there. An empty
    /// write drops the whole inode.
    pub fn overwrite(&mut self, ino: Ino, offset: u64, len: u64)
        requires
            old(self).wf(),
            len > 0 ==> old(self).bounds().chunk_size > 0,
        ensures
            final(self).wf(),
            final(self).bounds() == old(self).bounds(),
            final(self).counts() == old(self).counts(),
            final(self)@ == overwritten(
                old(self)@,
                old(self).bounds().chunk_size as int,
                ino,
                offset,
                len,
            ),
    {
        if len == 0 {
            self.invalidate_ino(ino);
            return ;
        }
        let ghost s = self@;
        let (start_idx, end_idx): (u64, u64) = self.index_range(offset, len);
        let full: usize = self.config.chunk_size;
        self.drop_where(ino, false, start_idx, end_idx, full);
        proof {
            let f = of_indices(ino, false, start_idx, end_idx, full);
            let g = of_write(ino, full as int, offset as int, len as int);
            assert forall|c: ChunkView| #[trigger] f(c) == g(c) by {
                assert((start_idx <= c.idx < end_idx) == meets(
                    c.idx,
                    full as int,
                    offset as int,
                    len as int,
                ));
            }
            lemma_dropped_same(s, f, g);
        }
    }

    /// The counts: hits, misses, chunks evicted and their bytes.
    pub fn tally(&self) -> (r: (u64, u64, u64, u64))
        ensures
            r.0 == self.counts().hits,
            r.1 == self.counts().misses,
            r.2 == self.counts().evictions,
            r.3 == self.counts().bytes_evicted,
    {
        (self.hits, self.misses, self.evictions, self.bytes_evicted)
    }

    /// The number of chunks kept.
    pub fn len(&self) -> (n: usize)
        ensures
            n == self@.len(),
    {
        self.chunks.len()
    }

    /// Whether nothing is kept.
    pub fn is_empty(&self) -> (r: bool)
        ensures
            r == (self@.len() == 0),
    {
        self.chunks.len() == 0
    }
}

spec fn of_indices(ino: Ino, all: bool, start: u64, end: u64, full: usize) -> spec_fn(
    ChunkView,
) -> bool {
    |c: ChunkView|
        c.ino == ino && (all || start <= c.idx < end || (c.idx < start && c.data.len() < full))
}

/// The counts after a chunk was put in: what was evicted is counted.
pub open spec fn evicted_counts(
    s: Seq<ChunkView>,
    max: int,
    ino: Ino,
    idx: u64,
    data: Seq<u8>,
    n: Counts,
) -> Counts {
    if data.len() > max {
        n
    } else {
        let full = without_chunk(s, ino, idx).push(ChunkView { ino, idx, data });
        let left = fitted(full, max);
        Counts {
            evictions: counted_by(n.evictions, full.len() - left.len()),
            bytes_evicted: counted_by(n.bytes_evicted, total(full) - total(left)),
            ..n
        }
    }
}

proof fn lemma_meets(idx: u64, chunk_size: u64, offset: u64, end_byte: u64, end_idx: u64)
    requires
        chunk_size > 0,
        end_idx == (if end_byte % chunk_size == 0 {
            (end_byte / chunk_size) as int
        } else {
            end_byte / chunk_size + 1
        }),
    ensures
        (offset / chunk_size <= idx) == (offset < (idx + 1) * chunk_size),
        (idx < end_idx) == (idx * chunk_size < end_byte),
{
    let c = chunk_size as int;
    let i = idx as int;
    let o = offset as int;
    let e = end_byte as int;
    assert((o / c <= i) == (o < (i + 1) * c)) by (nonlinear_arith)
        requires
            c > 0,
            o >= 0,
            i >= 0,
    ;
    if e % c == 0 {
        assert((i < e / c) == (i * c < e)) by (nonlinear_arith)
            requires
                c > 0,
                e >= 0,
                i >= 0,
                e % c == 0,
        ;
    } else {
        assert((i < e / c + 1) == (i * c < e)) by (nonlinear_arith)
            requires
                c > 0,
                e >= 0,
                i >= 0,
                e % c != 0,
        ;
    }
}

proof fn lemma_dropped_same(
    s: Seq<ChunkView>,
    f: spec_fn(ChunkView) -> bool,
    g: spec_fn(ChunkView) -> bool,
)
    requires
        forall|c: ChunkView| #[trigger] f(c) == g(c),
    ensures
        dropped(s, f) == dropped(s, g),
    decreases s.len(),
{
    if s.len() > 0 {
        lemma_dropped_same(s.drop_last(), f, g);
        assert(f(s.last()) == g(s.last()));
    }
}

proof fn lemma_total_prefix(s: Seq<ChunkView>, k: int)
    requires
        0 <= k <= s.len(),
    ensures
        total(s.take(k)) <= total(s),
    decreases s.len(),
{
    if k == s.len() {
        assert(s.take(k) =~= s);
    } else {
        lemma_total_prefix(s.drop_last(), k);
        assert(s.drop_last().take(k) =~= s.take(k));
    }
}

proof fn lemma_reinsert_distinct(s: Seq<ChunkView>, i: int, v: ChunkView)
    requires
        distinct(s),
        0 <= i < s.len(),
        v == s[i],
    ensures
        distinct(s.remove(i).push(v)),
{
    let r = s.remove(i).push(v);
    assert forall|a: int, b: int|
        #![trigger r[a], r[b]]
        0 <= a < b < r.len() implies !r[a].is(r[b].ino, r[b].idx) by {
        let a0 = if a < i { a } else { a + 1 };
        assert(r[a] == s[a0]);
        if b < r.len() - 1 {
            let b0 = if b < i { b } else { b + 1 };
            assert(r[b] == s[b0]);
        } else {
            assert(r[b] == s[i]);
            if a0 < i {
                assert(!s[a0].is(s[i].ino, s[i].idx));
            } else {
                assert(!s[i].is(s[a0].ino, s[a0].idx));
            }
        }
    }
}

proof fn lemma_fitted_suffix(s: Seq<ChunkView>, max: int)
    ensures
        fitted(s, max).len() <= s.len(),
        fitted(s, max) == s.skip(s.len() - fitted(s, max).len()),
        total(fitted(s, max)) <= total(s),
    decreases s.len(),
{
    if s.len() == 0 || total(s) <= max {
        assert(s.skip(0) =~= s);
    } else {
        lemma_fitted_suffix(s.drop_first(), max);
        lemma_total_drop_first(s);
        let k = s.drop_first().len() - fitted(s, max).len();
        assert(s.drop_first().skip(k) =~= s.skip(k + 1));
    }
}

/// Making room first and then putting a chunk in is the same as putting it in
/// and then making room.
proof fn lemma_fitted_push(s: Seq<ChunkView>, max: int, c: ChunkView)
    requires
        c.data.len() <= max,
    ensures
        fitted(s.push(c), max) == fitted(s, max - c.data.len()).push(c),
    decreases s.len(),
{
    lemma_total_push(s, c);
    if s.len() == 0 {
        assert(total(s) == 0);
    } else if total(s) + c.data.len() > max {
        lemma_fitted_push(s.drop_first(), max, c);
        assert(s.push(c).drop_first() =~= s.drop_first().push(c));
    }
}

/// Whether a choice of chunks goes by inode and index alone.
pub open spec fn by_key(f: spec_fn(ChunkView) -> bool) -> bool {
    forall|a: ChunkView, b: ChunkView| #![trigger f(a), f(b)] a.is(b.ino, b.idx) ==> f(a) == f(b)
}

/// Dropping chunks by key leaves the others as they were.
pub proof fn lemma_kept_dropped(
    s: Seq<ChunkView>,
    f: spec_fn(ChunkView) -> bool,
    ino: Ino,
    idx: u64,
)
    requires
        by_key(f),
    ensures
        kept(dropped(s, f), ino, idx) == (if f(ChunkView { ino, idx, data: Seq::empty() }) {
            None
        } else {
            kept(s, ino, idx)
        }),
    decreases s.len(),
{
    if s.len() > 0 {
        lemma_kept_dropped(s.drop_last(), f, ino, idx);
        let key = ChunkView { ino, idx, data: Seq::empty() };
        if s.last().is(ino, idx) {
            assert(f(s.last()) == f(key));
        }
        if !f(s.last()) {
            assert(dropped(s, f).drop_last() =~= dropped(s.drop_last(), f));
        }
    }
}

/// A chunk that is kept after some were dropped was kept before, and is none of
/// the dropped.
pub proof fn lemma_kept_survivor(
    s: Seq<ChunkView>,
    f: spec_fn(ChunkView) -> bool,
    ino: Ino,
    idx: u64,
)
    requires
        distinct(s),
        kept(dropped(s, f), ino, idx) is Some,
    ensures
        kept(s, ino, idx) == kept(dropped(s, f), ino, idx),
        !f(ChunkView { ino, idx, data: kept(s, ino, idx)->0 }),
{
    let d = dropped(s, f);
    let c = ChunkView { ino, idx, data: kept(d, ino, idx)->0 };
    lemma_dropped(s, f);
    lemma_kept(d, ino, idx);
    lemma_kept(s, ino, idx);
    let i = choose|i: int| 0 <= i < d.len() && d[i] == c;
    assert(s.contains(d[i]));
    let j = choose|j: int| 0 <= j < s.len() && s[j] == c;
    assert(s[j].is(ino, idx));
}

/// What is kept after making room was kept before, with the same content.
pub proof fn lemma_kept_fitted(s: Seq<ChunkView>, max: int, ino: Ino, idx: u64)
    requires
        kept(fitted(s, max), ino, idx) is Some,
    ensures
        kept(s, ino, idx) == kept(fitted(s, max), ino, idx),
    decreases s.len(),
{
    if s.len() > 0 && total(s) > max {
        lemma_kept_fitted(s.drop_first(), max, ino, idx);
        lemma_kept_drop_first(s, ino, idx);
    }
}

proof fn lemma_kept_drop_first(s: Seq<ChunkView>, ino: Ino, idx: u64)
    requires
        s.len() > 0,
        kept(s.drop_first(), ino, idx) is Some,
    ensures
        kept(s, ino, idx) == kept(s.drop_first(), ino, idx),
    decreases s.len(),
{
    if s.len() > 1 {
        assert(s.drop_first().last() == s.last());
        assert(s.drop_first().drop_last() =~= s.drop_last().drop_first());
        if !s.last().is(ino, idx) {
            lemma_kept_drop_first(s.drop_last(), ino, idx);
        }
    }
}

/// A chunk that fits is there right after it was put in.
pub proof fn law_get_after_insert(
    s: Seq<ChunkView>,
    max: int,
    ino: Ino,
    idx: u64,
    data: Seq<u8>,
)
    requires
        data.len() <= max,
    ensures
        kept(inserted(s, max, ino, idx, data), ino, idx) == Some(data),
{
    let c = ChunkView { ino, idx, data };
    lemma_fitted_push(without_chunk(s, ino, idx), max, c);
}

/// Putting a chunk in changes the content of no other chunk: it is kept as it
/// was, or evicted.
pub proof fn law_insert_leaves_others(
    s: Seq<ChunkView>,
    max: int,
    ino: Ino,
    idx: u64,
    data: Seq<u8>,
    other: Ino,
    at: u64,
)
    requires
        !(other == ino && at == idx),
        kept(inserted(s, max, ino, idx, data), other, at) is Some,
    ensures
        kept(inserted(s, max, ino, idx, data), other, at) == kept(s, other, at),
{
    if data.len() <= max {
        let c = ChunkView { ino, idx, data };
        let rest = without_chunk(s, ino, idx);
        lemma_kept_fitted(rest.push(c), max, other, at);
        assert(rest.push(c).drop_last() =~= rest);
        lemma_kept_dropped(s, the_chunk(ino, idx), other, at);
    }
}

/// The bytes kept never exceed the cap.
pub proof fn law_insert_within_cap(
    s: Seq<ChunkView>,
    max: int,
    ino: Ino,
    idx: u64,
    data: Seq<u8>,
)
    requires
        total(s) <= max,
    ensures
        total(inserted(s, max, ino, idx, data)) <= max,
{
    if data.len() <= max {
        lemma_fitted_within(without_chunk(s, ino, idx).push(ChunkView { ino, idx, data }), max);
    }
}

proof fn lemma_fitted_within(s: Seq<ChunkView>, max: int)
    requires
        max >= 0,
    ensures
        total(fitted(s, max)) <= max,
    decreases s.len(),
{
    if s.len() > 0 && total(s) > max {
        lemma_fitted_within(s.drop_first(), max);
    }
}

/// Eviction takes the least recently used: what is left is the newer end of
/// the order, and one chunk more would not have fit.
pub proof fn law_evicts_oldest(s: Seq<ChunkView>, max: int)
    ensures
        fitted(s, max).len() <= s.len(),
        fitted(s, max) == s.skip(s.len() - fitted(s, max).len()),
        fitted(s, max).len() < s.len() ==> total(s.skip(s.len() - fitted(s, max).len() - 1)) > max,
    decreases s.len(),
{
    lemma_fitted_suffix(s, max);
    if s.len() > 0 && total(s) > max {
        law_evicts_oldest(s.drop_first(), max);
        let k = fitted(s, max).len();
        if k < s.drop_first().len() {
            assert(s.drop_first().skip(s.drop_first().len() - k - 1) =~= s.skip(s.len() - k - 1));
        } else {
            assert(s.skip(0) =~= s);
        }
    }
}

/// Invalidating a range drops the chunks that meet it and no others.
pub proof fn law_invalidate_exact(
    s: Seq<ChunkView>,
    chunk_size: int,
    ino: Ino,
    offset: u64,
    len: u64,
    other: Ino,
    idx: u64,
)
    ensures
        kept(invalidated(s, chunk_size, ino, offset, len), other, idx) == (if other == ino && (len
            == 0 || meets(idx, chunk_size, offset as int, len as int)) {
            None
        } else {
            kept(s, other, idx)
        }),
{
    lemma_kept_dropped(s, of_inode(ino), other, idx);
    lemma_kept_dropped(s, of_range(ino, chunk_size, offset as int, len as int), other, idx);
}

/// Invalidating the same range again changes nothing.
pub proof fn law_invalidate_idempotent(
    s: Seq<ChunkView>,
    chunk_size: int,
    ino: Ino,
    offset: u64,
    len: u64,
)
    ensures
        invalidated(invalidated(s, chunk_size, ino, offset, len), chunk_size, ino, offset, len)
            == invalidated(s, chunk_size, ino, offset, len),
{
    let f = if len == 0 {
        of_inode(ino)
    } else {
        of_range(ino, chunk_size, offset as int, len as int)
    };
    let once = dropped(s, f);
    lemma_dropped(s, f);
    lemma_dropped(once, f);
    assert(once == invalidated(s, chunk_size, ino, offset, len));
}

/// Putting the same chunk in again changes nothing, and evicts nothing.
pub proof fn law_insert_idempotent(
    s: Seq<ChunkView>,
    max: int,
    ino: Ino,
    idx: u64,
    data: Seq<u8>,
    n: Counts,
)
    ensures
        ({
            let once = inserted(s, max, ino, idx, data);
            &&& inserted(once, max, ino, idx, data) == once
            &&& evicted_counts(once, max, ino, idx, data, n) == n
        }),
{
    if data.len() <= max {
        let c = ChunkView { ino, idx, data };
        let drop = the_chunk(ino, idx);
        let rest = without_chunk(s, ino, idx);
        let left = fitted(rest, max - data.len());
        let once = inserted(s, max, ino, idx, data);
        lemma_fitted_push(rest, max, c);
        lemma_fitted_suffix(rest, max - data.len());
        lemma_fitted_within(rest.push(c), max);
        lemma_dropped(s, drop);
        assert(once == left.push(c));
        assert(once.drop_last() =~= left);
        assert forall|i: int| 0 <= i < left.len() implies !drop(#[trigger] left[i]) by {
            let k = i + (rest.len() - left.len());
            assert(left[i] == rest[k]);
        }
        lemma_dropped(left, drop);
        assert(without_chunk(once, ino, idx) == left);
    }
}

/// A chunk meets a byte range where a byte of the range lies in it. Ranges end
/// at the largest offset at the latest.
pub proof fn law_meeting_ranges(idx: u64, chunk_size: int, offset: u64, len: u64, p: int)
    requires
        chunk_size > 0,
        len > 0,
    ensures
        idx * chunk_size <= p < (idx + 1) * chunk_size && offset <= p < offset + len && p < u64::MAX
            ==> meets(idx, chunk_size, offset as int, len as int),
        meets(idx, chunk_size, offset as int, len as int) ==> {
            let first = if idx * chunk_size > offset {
                idx * chunk_size
            } else {
                offset as int
            };
            &&& idx * chunk_size <= first < (idx + 1) * chunk_size
            &&& offset <= first < offset + len || offset == u64::MAX
        },
{
    assert(idx * chunk_size < (idx + 1) * chunk_size) by (nonlinear_arith)
        requires
            chunk_size > 0,
    ;
}

/// A write drops the chunks of its inode that hold a byte of it, and those
/// before it that are short, in which the file ended; an empty write drops
/// them all. Every other chunk is kept.
pub proof fn law_overwrite_exact(
    s: Seq<ChunkView>,
    chunk_size: int,
    ino: Ino,
    offset: u64,
    len: u64,
    i: int,
)
    requires
        0 <= i < s.len(),
    ensures
        ({
            let c = s[i];
            let hit = c.ino == ino && (len == 0 || meets(
                c.idx,
                chunk_size,
                offset as int,
                len as int,
            ) || (c.data.len() < chunk_size && (c.idx + 1) * chunk_size <= offset));
            &&& !hit ==> overwritten(s, chunk_size, ino, offset, len).contains(c)
            &&& hit ==> !overwritten(s, chunk_size, ino, offset, len).contains(c)
        }),
{
    let f = if len == 0 {
        of_inode(ino)
    } else {
        of_write(ino, chunk_size, offset as int, len as int)
    };
    lemma_dropped(s, f);
    let left = dropped(s, f);
    if left.contains(s[i]) {
        let j = choose|j: int| 0 <= j < left.len() && left[j] == s[i];
        assert(!f(left[j]));
    }
    assert(!f(s[i]) ==> left.contains(s[i]));
}

/// A chunk that is used becomes the last to be evicted, with its content; the
/// others keep their order. One that is not kept changes nothing.
pub proof fn law_use_keeps_longest(s: Seq<ChunkView>, ino: Ino, idx: u64, i: int)
    requires
        distinct(s),
    ensures
        0 <= i < s.len() && s[i].ino == ino && s[i].idx == idx ==> {
            &&& touched(s, ino, idx).len() == s.len()
            &&& touched(s, ino, idx).last() == s[i]
            &&& touched(s, ino, idx).drop_last() == s.remove(i)
        },
        (forall|j: int|
            0 <= j < s.len() ==> !((#[trigger] s[j]).ino == ino && s[j].idx == idx)) ==> touched(
            s,
            ino,
            idx,
        ) == s,
{
    if 0 <= i < s.len() && s[i].ino == ino && s[i].idx == idx {
        lemma_kept_at(s, ino, idx, i);
        lemma_without_at(s, ino, idx, i);
        assert(touched(s, ino, idx).drop_last() =~= s.remove(i));
    } else if forall|j: int|
        0 <= j < s.len() ==> !((#[trigger] s[j]).ino == ino && s[j].idx == idx) {
        lemma_kept_nowhere(s, ino, idx);
    }
}

proof fn lemma_kept_at(s: Seq<ChunkView>, ino: Ino, idx: u64, i: int)
    requires
        distinct(s),
        0 <= i < s.len(),
        s[i].ino == ino,
        s[i].idx == idx,
    ensures
        kept(s, ino, idx) == Some(s[i].data),
    decreases s.len(),
{
    if i < s.len() - 1 {
        assert(!s[i].is(s[s.len() - 1].ino, s[s.len() - 1].idx));
        let rest = s.drop_last();
        assert forall|a: int, b: int|
            #![trigger rest[a], rest[b]]
            0 <= a < b < rest.len() implies !rest[a].is(rest[b].ino, rest[b].idx) by {
            assert(rest[a] == s[a] && rest[b] == s[b]);
        }
        lemma_kept_at(rest, ino, idx, i);
    }
}

proof fn lemma_kept_nowhere(s: Seq<ChunkView>, ino: Ino, idx: u64)
    requires
        forall|j: int| 0 <= j < s.len() ==> !((#[trigger] s[j]).ino == ino && s[j].idx == idx),
    ensures
        kept(s, ino, idx) is None,
    decreases s.len(),
{
    if s.len() > 0 {
        let rest = s.drop_last();
        assert forall|j: int| 0 <= j < rest.len() implies !((#[trigger] rest[j]).ino == ino
            && rest[j].idx == idx) by {
            assert(rest[j] == s[j]);
        }
        assert(s[s.len() - 1] == s.last());
        lemma_kept_nowhere(rest, ino, idx);
    }
}

/// What is kept of a chunk is the content of the chunk that has its key.
pub proof fn law_kept_content(s: Seq<ChunkView>, ino: Ino, idx: u64, i: int)
    requires
        distinct(s),
    ensures
        0 <= i < s.len() && s[i].ino == ino && s[i].idx == idx ==> kept(s, ino, idx) == Some(
            s[i].data,
        ),
        (forall|j: int| 0 <= j < s.len() ==> !((#[trigger] s[j]).ino == ino && s[j].idx == idx))
            ==> kept(s, ino, idx) is None,
{
    if 0 <= i < s.len() && s[i].ino == ino && s[i].idx == idx {
        lemma_kept_at(s, ino, idx, i);
    } else if forall|j: int|
        0 <= j < s.len() ==> !((#[trigger] s[j]).ino == ino && s[j].idx == idx) {
        lemma_kept_nowhere(s, ino, idx);
    }
}

/// What is evicted is counted, chunk by chunk and byte by byte, and nothing
/// else is; a chunk above the cap is not put in.
pub proof fn law_evictions_counted(
    s: Seq<ChunkView>,
    max: int,
    ino: Ino,
    idx: u64,
    data: Seq<u8>,
    n: Counts,
)
    requires
        n.evictions + s.len() + 1 <= u64::MAX,
        n.bytes_evicted + total(s) + data.len() <= u64::MAX,
    ensures
        data.len() > max ==> inserted(s, max, ino, idx, data) == s && evicted_counts(
            s,
            max,
            ino,
            idx,
            data,
            n,
        ) == n,
        data.len() <= max ==> {
            let full = without_chunk(s, ino, idx).push(ChunkView { ino, idx, data });
            let left = inserted(s, max, ino, idx, data);
            let after = evicted_counts(s, max, ino, idx, data, n);
            &&& after.evictions == n.evictions + full.len() - left.len()
            &&& after.bytes_evicted == n.bytes_evicted + total(full) - total(left)
            &&& after.hits == n.hits
            &&& after.misses == n.misses
        },
{
    if data.len() <= max {
        let rest = without_chunk(s, ino, idx);
        lemma_dropped(s, the_chunk(ino, idx));
        let c = ChunkView { ino, idx, data };
        let full = rest.push(c);
        assert(full.drop_last() =~= rest);
        law_evicts_oldest(full, max);
        lemma_fitted_total(full, max);
    }
}

proof fn lemma_fitted_total(s: Seq<ChunkView>, max: int)
    ensures
        total(fitted(s, max)) <= total(s),
    decreases s.len(),
{
    if s.len() > 0 && total(s) > max {
        lemma_fitted_total(s.drop_first(), max);
        lemma_total_drop_first(s);
    }
}

} // verus!
