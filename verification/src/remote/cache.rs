//! The state of the sprite-side cache, and what each event does to it.
//!
//! Attributes, lookups and failed lookups are kept for a time; file content is
//! kept in chunks; writes are buffered per inode and reach the host in order.
//! The caches are invisible: a read gives what the host holds, with the writes
//! of this sprite on top. No event waits here for the host: what needs an
//! answer is split into the part before the question and the part after it.

use std::collections::BTreeMap;

use bytes::Bytes;
use vstd::prelude::*;

use crate::host::dispatch::{bumped, generation};
use crate::payload::{
    bytes_clone, bytes_contents, bytes_from, bytes_slice, copy_range, spliced, window,
};
use crate::protocol::errno::ENOENT;
use crate::protocol::{
    entry_plus_views, DirEntryPlus, EntryPlusView, FileAttr, Ino, Push, PushView,
};
use crate::remote::client::ClientError;
use crate::remote::content_cache::{
    counted, evicted_counts, inserted, invalidated, kept, overwritten, touched, ChunkView,
    ContentCache, ContentCacheConfig, Counts,
};
use crate::remote::lookups::{LookupEntry, LookupTable};
use crate::remote::tally::{outcome_of, tallied, PrefillOutcome, PrefillTally, REPORT_INTERVAL};

verus! {

/// How long things are kept, in nanoseconds, and how content is kept.
#[derive(Debug, Clone, Copy, PartialEq, Eq, Structural)]
pub struct CacheConfig {
    pub attr_ttl: u64,
    pub lookup_ttl: u64,
    pub negative_ttl: u64,
    pub content: ContentCacheConfig,
}

pub const SECOND_NS: u64 = 1_000_000_000;

impl Default for CacheConfig {
    fn default() -> (r: Self)
        ensures
            r.attr_ttl == SECOND_NS,
            r.lookup_ttl == SECOND_NS,
            r.negative_ttl == SECOND_NS,
            r.content.chunk_size == crate::remote::content_cache::DEFAULT_CHUNK_SIZE,
            r.content.max_bytes == crate::remote::content_cache::DEFAULT_MAX_BYTES,
    {
        CacheConfig {
            attr_ttl: SECOND_NS,
            lookup_ttl: SECOND_NS,
            negative_ttl: SECOND_NS,
            content: ContentCacheConfig::default(),
        }
    }
}

/// Cached attributes, good until a time.
#[derive(Debug, Clone, Copy, PartialEq, Eq, Structural)]
pub struct AttrEntry {
    pub attr: FileAttr,
    pub expires_at: u64,
}

/// A buffered write.
#[derive(Debug)]
struct Extent {
    offset: u64,
    data: Bytes,
}

/// A write on its way to the host.
#[derive(Debug)]
pub struct FlushWrite {
    pub offset: u64,
    pub data: Bytes,
    pub handle: u64,
}

/// The buffered writes of one inode.
///
/// Writes are sent to the host one after the other, in the order in which they
/// were made. Reads see every write that was made before them. The first write
/// that fails is remembered until a release or a sync asks for it.
struct InodeWriteBack {
    dirty: Vec<Extent>,
    queue: Vec<FlushWrite>,
    in_flight: bool,
    first_error: Option<ClientError>,
}

/// How many writes of an inode may wait before writers wait too.
pub const FLUSH_QUEUE_CAPACITY: usize = 256;

/// What a buffered write says.
pub struct ExtentView {
    pub offset: u64,
    pub data: Seq<u8>,
}

/// What a write on its way says.
pub struct FlushView {
    pub offset: u64,
    pub data: Seq<u8>,
    pub handle: u64,
}

impl View for FlushWrite {
    type V = FlushView;

    open spec fn view(&self) -> FlushView {
        FlushView { offset: self.offset, data: bytes_contents(self.data), handle: self.handle }
    }
}

/// The buffered writes of an inode, oldest first; those still to be sent; one
/// that is being sent; and the first failure.
pub struct WriteBackView {
    pub dirty: Seq<ExtentView>,
    pub queue: Seq<FlushView>,
    pub in_flight: bool,
    pub first_error: Option<ClientError>,
}

spec fn extent_views(v: Seq<Extent>) -> Seq<ExtentView> {
    Seq::new(v.len(), |i: int| ExtentView { offset: v[i].offset, data: bytes_contents(v[i].data) })
}

spec fn flush_views(v: Seq<FlushWrite>) -> Seq<FlushView> {
    Seq::new(v.len(), |i: int| v[i]@)
}

impl InodeWriteBack {
    spec fn look(self) -> WriteBackView {
        WriteBackView {
            dirty: extent_views(self.dirty@),
            queue: flush_views(self.queue@),
            in_flight: self.in_flight,
            first_error: self.first_error,
        }
    }
}

/// Nothing buffered.
pub open spec fn idle() -> WriteBackView {
    WriteBackView { dirty: Seq::empty(), queue: Seq::empty(), in_flight: false, first_error: None }
}

/// What was counted.
pub struct CacheCounts {
    pub hits_attr: u64,
    pub misses_attr: u64,
    pub hits_lookup: u64,
    pub misses_lookup: u64,
    pub hits_negative: u64,
    pub stale_fetches_dropped: u64,
    pub content: Counts,
}

/// The state of the cache.
pub struct CacheView {
    pub attrs: Map<Ino, AttrEntry>,
    pub lookups: Map<(Ino, Seq<char>), LookupEntry>,
    pub chunks: Seq<ChunkView>,
    pub gens: Map<Ino, u64>,
    pub wb: Map<Ino, WriteBackView>,
    pub counts: CacheCounts,
}

/// When something that is kept from `now` on expires.
pub open spec fn expiry(now: u64, ttl: u64) -> u64 {
    if now + ttl <= u64::MAX {
        (now + ttl) as u64
    } else {
        u64::MAX
    }
}

/// The buffered writes of an inode.
pub open spec fn dirty_of(v: CacheView, ino: Ino) -> Seq<ExtentView> {
    if v.wb.dom().contains(ino) {
        v.wb[ino].dirty
    } else {
        Seq::empty()
    }
}

/// Content with buffered writes applied, oldest first.
pub open spec fn applied(content: Seq<u8>, dirty: Seq<ExtentView>) -> Seq<u8>
    decreases dirty.len(),
{
    if dirty.len() == 0 {
        content
    } else {
        spliced(
            applied(content, dirty.drop_last()),
            dirty.last().offset as int,
            dirty.last().data,
        )
    }
}

/// Where a buffered write ends.
pub open spec fn extent_end(x: ExtentView) -> u64 {
    if x.offset + x.data.len() <= u64::MAX {
        (x.offset + x.data.len()) as u64
    } else {
        u64::MAX
    }
}

/// A size with buffered writes on top.
pub open spec fn size_over(size: u64, dirty: Seq<ExtentView>) -> u64
    decreases dirty.len(),
{
    if dirty.len() == 0 {
        size
    } else {
        let before = size_over(size, dirty.drop_last());
        if extent_end(dirty.last()) > before {
            extent_end(dirty.last())
        } else {
            before
        }
    }
}

/// Attributes of the host, with the size that the buffered writes give.
pub open spec fn attr_over(attr: FileAttr, dirty: Seq<ExtentView>) -> FileAttr {
    FileAttr { size: size_over(attr.size, dirty), ..attr }
}

/// The cache after attributes were learned.
pub open spec fn with_attr(
    v: CacheView,
    cfg: CacheConfig,
    now: u64,
    ino: Ino,
    attr: FileAttr,
) -> CacheView {
    CacheView {
        attrs: v.attrs.insert(ino, AttrEntry { attr, expires_at: expiry(now, cfg.attr_ttl) }),
        ..v
    }
}

/// The cache after a directory entry was learned.
pub open spec fn with_entry(
    v: CacheView,
    cfg: CacheConfig,
    now: u64,
    parent: Ino,
    name: Seq<char>,
    attr: FileAttr,
) -> CacheView {
    with_attr(
        CacheView {
            lookups: v.lookups.insert(
                (parent, name),
                LookupEntry::Found { attr, expires_at: expiry(now, cfg.lookup_ttl) },
            ),
            ..v
        },
        cfg,
        now,
        attr.ino,
        attr,
    )
}

/// The cache after the entries of a directory were learned.
pub open spec fn with_entries(
    v: CacheView,
    cfg: CacheConfig,
    now: u64,
    parent: Ino,
    entries: Seq<EntryPlusView>,
) -> CacheView
    decreases entries.len(),
{
    if entries.len() == 0 {
        v
    } else {
        with_entry(
            with_entries(v, cfg, now, parent, entries.drop_last()),
            cfg,
            now,
            parent,
            entries.last().name,
            entries.last().attr,
        )
    }
}

/// The cache without an entry of a directory.
pub open spec fn without_entry(v: CacheView, parent: Ino, name: Seq<char>) -> CacheView {
    CacheView { lookups: v.lookups.remove((parent, name)), ..v }
}

/// What a lookup finds in the cache.
pub open spec fn cached_lookup(v: CacheView, now: u64, parent: Ino, name: Seq<char>) -> Option<
    Result<FileAttr, ClientError>,
> {
    if !v.lookups.dom().contains((parent, name)) {
        None
    } else {
        match v.lookups[(parent, name)] {
            LookupEntry::Found { attr, expires_at } => if expires_at > now {
                Some(Ok(attr))
            } else {
                None
            },
            LookupEntry::NotFound { expires_at } => if expires_at > now {
                Some(Err(ClientError::Errno(ENOENT)))
            } else {
                None
            },
        }
    }
}

/// The cache after a lookup was looked for in it.
pub open spec fn lookup_counted(
    v: CacheView,
    hit: Option<Result<FileAttr, ClientError>>,
) -> CacheView {
    CacheView {
        counts: match hit {
            Some(Ok(_)) => CacheCounts { hits_lookup: counted(v.counts.hits_lookup), ..v.counts },
            Some(Err(_)) => CacheCounts {
                hits_negative: counted(v.counts.hits_negative),
                ..v.counts
            },
            None => CacheCounts { misses_lookup: counted(v.counts.misses_lookup), ..v.counts },
        },
        ..v
    }
}

/// The cache after the host answered a lookup.
pub open spec fn lookup_answered(
    v: CacheView,
    cfg: CacheConfig,
    now: u64,
    parent: Ino,
    name: Seq<char>,
    r: Result<FileAttr, ClientError>,
) -> CacheView {
    match r {
        Ok(attr) => with_entry(v, cfg, now, parent, name, attr),
        Err(e) => if e == ClientError::Errno(ENOENT) {
            CacheView {
                lookups: v.lookups.insert(
                    (parent, name),
                    LookupEntry::NotFound { expires_at: expiry(now, cfg.negative_ttl) },
                ),
                ..v
            }
        } else {
            v
        },
    }
}

/// What attributes are found in the cache.
pub open spec fn cached_attr(v: CacheView, now: u64, ino: Ino) -> Option<FileAttr> {
    if v.attrs.dom().contains(ino) && v.attrs[ino].expires_at > now {
        Some(attr_over(v.attrs[ino].attr, dirty_of(v, ino)))
    } else {
        None
    }
}

/// The cache after attributes were looked for in it.
pub open spec fn attr_counted(v: CacheView, hit: bool) -> CacheView {
    CacheView {
        counts: if hit {
            CacheCounts { hits_attr: counted(v.counts.hits_attr), ..v.counts }
        } else {
            CacheCounts { misses_attr: counted(v.counts.misses_attr), ..v.counts }
        },
        ..v
    }
}

/// The generations after `ino` was seen at `g`: they only go up.
pub open spec fn raised(gens: Map<Ino, u64>, ino: Ino, g: u64) -> Map<Ino, u64> {
    gens.insert(
        ino,
        if g > generation(gens, ino) {
            g
        } else {
            generation(gens, ino)
        },
    )
}

/// The cache after a chunk arrived under a generation: a chunk that is older
/// than what was seen of its inode is not kept.
pub open spec fn with_chunk(
    v: CacheView,
    max: int,
    ino: Ino,
    idx: u64,
    data: Seq<u8>,
    g: u64,
) -> CacheView {
    if generation(v.gens, ino) > g {
        CacheView {
            counts: CacheCounts {
                stale_fetches_dropped: counted(v.counts.stale_fetches_dropped),
                ..v.counts
            },
            ..v
        }
    } else {
        CacheView {
            chunks: inserted(v.chunks, max, ino, idx, data),
            gens: raised(v.gens, ino, g),
            counts: CacheCounts {
                content: evicted_counts(v.chunks, max, ino, idx, data, v.counts.content),
                ..v.counts
            },
            ..v
        }
    }
}

/// The cache after a message of the host.
pub open spec fn pushed(v: CacheView, content: ContentCacheConfig, p: PushView) -> CacheView {
    match p {
        PushView::InvalidateAttr { ino } => CacheView { attrs: v.attrs.remove(ino), ..v },
        PushView::InvalidateEntry { parent, name, .. } => without_entry(v, parent, name),
        PushView::InvalidateData { ino, offset, len, generation } => CacheView {
            attrs: v.attrs.remove(ino),
            chunks: invalidated(v.chunks, content.chunk_size as int, ino, offset, len),
            gens: raised(v.gens, ino, generation),
            ..v
        },
        PushView::Resync { .. } => CacheView {
            attrs: Map::empty(),
            lookups: Map::empty(),
            chunks: Seq::empty(),
            gens: Map::empty(),
            counts: CacheCounts {
                content: Counts { hits: 0, misses: 0, evictions: 0, bytes_evicted: 0 },
                ..v.counts
            },
            ..v
        },
        PushView::Prefill { ino, chunk_idx, chunk_size, data, generation } => if chunk_size
            == content.chunk_size {
            with_chunk(v, content.max_bytes as int, ino, chunk_idx, data, generation)
        } else {
            v
        },
    }
}

/// The write-back state of an inode, or an idle one.
pub open spec fn wb_of(v: CacheView, ino: Ino) -> WriteBackView {
    if v.wb.dom().contains(ino) {
        v.wb[ino]
    } else {
        idle()
    }
}

/// How many of the buffered writes the host has answered.
pub open spec fn answered(w: WriteBackView) -> int {
    w.dirty.len() - w.queue.len() - (if w.in_flight {
        1int
    } else {
        0int
    })
}

/// Whether the writes of an inode go in order: those still to be sent are the
/// last ones that were buffered, and the one that is being sent comes right
/// before them.
pub open spec fn lined_up(w: WriteBackView) -> bool {
    &&& answered(w) >= 0
    &&& forall|i: int|
        #![trigger w.queue[i]]
        0 <= i < w.queue.len() ==> w.dirty[w.dirty.len() - w.queue.len() + i] == (ExtentView {
            offset: w.queue[i].offset,
            data: w.queue[i].data,
        })
}

/// Whether every write of an inode was sent and answered.
pub open spec fn all_answered(w: WriteBackView) -> bool {
    w.queue.len() == 0 && !w.in_flight
}

/// The cache after the next write of an inode was taken to be sent.
pub open spec fn flush_taken(v: CacheView, ino: Ino) -> CacheView {
    let w = wb_of(v, ino);
    if w.in_flight || w.queue.len() == 0 {
        v
    } else {
        CacheView {
            wb: v.wb.insert(
                ino,
                WriteBackView { queue: w.queue.drop_first(), in_flight: true, ..w },
            ),
            ..v
        }
    }
}

/// The cache after the host answered the write that was sent.
pub open spec fn flush_told(v: CacheView, ino: Ino, r: Result<u32, ClientError>) -> CacheView {
    if v.wb.dom().contains(ino) {
        CacheView {
            wb: v.wb.insert(
                ino,
                WriteBackView {
                    in_flight: false,
                    first_error: first_error(v.wb[ino].first_error, r),
                    ..v.wb[ino]
                },
            ),
            ..v
        }
    } else {
        v
    }
}

/// What a sync or a release learns of the writes before it: the first failure.
pub open spec fn drain_result(w: WriteBackView) -> Result<(), ClientError> {
    match w.first_error {
        Some(e) => Err(e),
        None => Ok(()),
    }
}

/// What a sync or a release gives: the first failure of the writes before it,
/// and where there is none what the host said to the sync or release itself.
pub open spec fn barrier_result(
    flushed: Result<(), ClientError>,
    host: Result<(), ClientError>,
) -> Result<(), ClientError> {
    match flushed {
        Err(e) => Err(e),
        Ok(_) => host,
    }
}

/// The cache after a write was buffered.
pub open spec fn written(
    v: CacheView,
    chunk_size: int,
    ino: Ino,
    handle: u64,
    offset: u64,
    data: Seq<u8>,
) -> CacheView {
    let w = wb_of(v, ino);
    CacheView {
        attrs: v.attrs.remove(ino),
        chunks: overwritten(v.chunks, chunk_size, ino, offset, data.len() as u64),
        gens: bumped(v.gens, ino),
        wb: v.wb.insert(
            ino,
            WriteBackView {
                dirty: w.dirty.push(ExtentView { offset, data }),
                queue: w.queue.push(FlushView { offset, data, handle }),
                ..w
            },
        ),
        ..v
    }
}

/// The cache after the size of a file was set on the host.
pub open spec fn truncated(v: CacheView, chunk_size: int, ino: Ino) -> CacheView {
    CacheView {
        attrs: v.attrs.remove(ino),
        chunks: invalidated(v.chunks, chunk_size, ino, 0, 0),
        gens: bumped(v.gens, ino),
        ..v
    }
}

/// The cache after the permissions of a file were set on the host.
pub open spec fn chmodded(v: CacheView, ino: Ino) -> CacheView {
    CacheView { attrs: v.attrs.remove(ino), gens: bumped(v.gens, ino), ..v }
}

/// What the cache has counted and holds.
#[derive(Debug, Clone, Copy, PartialEq, Eq, Structural)]
pub struct CacheStats {
    pub attr_entries: usize,
    pub lookup_entries: usize,
    pub content_chunks: usize,
    pub hits_attr: u64,
    pub misses_attr: u64,
    pub hits_lookup: u64,
    pub misses_lookup: u64,
    pub hits_negative: u64,
    pub hits_content: u64,
    pub misses_content: u64,
    pub evictions_content: u64,
    pub bytes_evicted_content: u64,
    pub stale_fetches_dropped: u64,
    pub content_bytes: usize,
}

/// The cache.
pub struct CacheState {
    attrs: BTreeMap<Ino, AttrEntry>,
    lookups: LookupTable,
    content: ContentCache,
    generations: BTreeMap<Ino, u64>,
    write_back: BTreeMap<Ino, InodeWriteBack>,
    config: CacheConfig,
    hits_attr: u64,
    misses_attr: u64,
    hits_lookup: u64,
    misses_lookup: u64,
    hits_negative: u64,
    stale_fetches_dropped: u64,
}

impl View for CacheState {
    type V = CacheView;

    closed spec fn view(&self) -> CacheView {
        CacheView {
            attrs: self.attrs@,
            lookups: self.lookups@,
            chunks: self.content@,
            gens: self.generations@,
            wb: Map::new(
                |k: Ino| self.write_back@.dom().contains(k),
                |k: Ino| self.write_back@[k].look(),
            ),
            counts: CacheCounts {
                hits_attr: self.hits_attr,
                misses_attr: self.misses_attr,
                hits_lookup: self.hits_lookup,
                misses_lookup: self.misses_lookup,
                hits_negative: self.hits_negative,
                stale_fetches_dropped: self.stale_fetches_dropped,
                content: self.content.counts(),
            },
        }
    }
}

fn count(n: u64) -> (r: u64)
    ensures
        r == counted(n),
{
    if n < u64::MAX {
        n + 1
    } else {
        n
    }
}

fn expires(now: u64, ttl: u64) -> (r: u64)
    ensures
        r == expiry(now, ttl),
{
    if now <= u64::MAX - ttl {
        now + ttl
    } else {
        u64::MAX
    }
}

impl CacheState {
    pub closed spec fn bounds(&self) -> CacheConfig {
        self.config
    }

    /// The parts are sound.
    pub closed spec fn wf(&self) -> bool {
        &&& self.lookups.wf()
        &&& self.content.wf()
        &&& self.content.bounds() == self.config.content
        &&& forall|k: Ino|
            #![trigger self.write_back@[k]]
            self.write_back@.dom().contains(k) ==> lined_up(self.write_back@[k].look())
    }

    /// An empty cache.
    pub fn new(config: CacheConfig) -> (r: Self)
        ensures
            r.wf(),
            r.bounds() == config,
            r@ == (CacheView {
                attrs: Map::empty(),
                lookups: Map::empty(),
                chunks: Seq::empty(),
                gens: Map::empty(),
                wb: Map::empty(),
                counts: CacheCounts {
                    hits_attr: 0,
                    misses_attr: 0,
                    hits_lookup: 0,
                    misses_lookup: 0,
                    hits_negative: 0,
                    stale_fetches_dropped: 0,
                    content: Counts { hits: 0, misses: 0, evictions: 0, bytes_evicted: 0 },
                },
            }),
    {
        let r = CacheState {
            attrs: BTreeMap::new(),
            lookups: LookupTable::new(),
            content: ContentCache::new(config.content),
            generations: BTreeMap::new(),
            write_back: BTreeMap::new(),
            config,
            hits_attr: 0,
            misses_attr: 0,
            hits_lookup: 0,
            misses_lookup: 0,
            hits_negative: 0,
            stale_fetches_dropped: 0,
        };
        assert(r@.wb =~= Map::<Ino, WriteBackView>::empty());
        r
    }

    /// Look for a lookup in the cache: `None` asks the host.
    pub fn lookup_begin(&mut self, now: u64, parent: Ino, name: &str) -> (r: Option<
        Result<FileAttr, ClientError>,
    >)
        requires
            old(self).wf(),
        ensures
            final(self).wf(),
            final(self).bounds() == old(self).bounds(),
            r == cached_lookup(old(self)@, now, parent, name@),
            final(self)@ == lookup_counted(old(self)@, r),
    {
        if let Some(entry) = self.lookups.get(parent, name) {
            match entry {
                LookupEntry::Found { attr, expires_at } => {
                    if expires_at > now {
                        self.hits_lookup = count(self.hits_lookup);
                        return Some(Ok(attr));
                    }
                },
                LookupEntry::NotFound { expires_at } => {
                    if expires_at > now {
                        self.hits_negative = count(self.hits_negative);
                        return Some(Err(ClientError::Errno(ENOENT)));
                    }
                },
            }
        }
        self.misses_lookup = count(self.misses_lookup);
        None
    }

    /// Take in the host's answer to a lookup that was asked at `now`.
    pub fn lookup_finish(
        &mut self,
        now: u64,
        parent: Ino,
        name: &str,
        r: Result<FileAttr, ClientError>,
    ) -> (out: Result<FileAttr, ClientError>)
        requires
            old(self).wf(),
        ensures
            final(self).wf(),
            final(self).bounds() == old(self).bounds(),
            out == r,
            final(self)@ == lookup_answered(old(self)@, old(self).bounds(), now, parent, name@, r),
    {
        match r {
            Ok(attr) => {
                self.entry_learned(now, parent, name, attr);
            },
            Err(ClientError::Errno(n)) => {
                if n == ENOENT {
                    self.lookups.insert(
                        parent,
                        name,
                        LookupEntry::NotFound {
                            expires_at: expires(now, self.config.negative_ttl),
                        },
                    );
                }
            },
            Err(_) => {},
        }
        r
    }

    /// Keep a directory entry with its attributes. Used for every answer that
    /// carries one: lookups, creations and directory pages.
    pub fn entry_learned(&mut self, now: u64, parent: Ino, name: &str, attr: FileAttr)
        requires
            old(self).wf(),
        ensures
            final(self).wf(),
            final(self).bounds() == old(self).bounds(),
            final(self)@ == with_entry(old(self)@, old(self).bounds(), now, parent, name@, attr),
    {
        self.lookups.insert(
            parent,
            name,
            LookupEntry::Found { attr, expires_at: expires(now, self.config.lookup_ttl) },
        );
        self.attrs.insert(
            attr.ino,
            AttrEntry { attr, expires_at: expires(now, self.config.attr_ttl) },
        );
    }

    /// Keep the entries of a directory page, so that the calls for each of
    /// them that follow are answered from the cache.
    pub fn page_learned(&mut self, now: u64, parent: Ino, entries: &Vec<DirEntryPlus>)
        requires
            old(self).wf(),
        ensures
            final(self).wf(),
            final(self).bounds() == old(self).bounds(),
            final(self)@ == with_entries(
                old(self)@,
                old(self).bounds(),
                now,
                parent,
                entry_plus_views(entries@),
            ),
    {
        let ghost all = entry_plus_views(entries@);
        let mut i: usize = 0;
        assert(all.take(0) =~= Seq::empty());
        while i < entries.len()
            invariant
                i <= entries@.len(),
                all == entry_plus_views(entries@),
                self.wf(),
                self.bounds() == old(self).bounds(),
                self@ == with_entries(
                    old(self)@,
                    old(self).bounds(),
                    now,
                    parent,
                    all.take(i as int),
                ),
            decreases entries@.len() - i,
        {
            proof {
                assert(all.take(i + 1).drop_last() =~= all.take(i as int));
                assert(all.take(i + 1).last() == entries@[i as int]@);
            }
            self.entry_learned(now, parent, &entries[i].name, entries[i].attr);
            i += 1;
        }
        assert(all.take(all.len() as int) =~= all);
    }

    /// Forget a directory entry that was removed or moved.
    pub fn entry_gone(&mut self, parent: Ino, name: &str)
        requires
            old(self).wf(),
        ensures
            final(self).wf(),
            final(self).bounds() == old(self).bounds(),
            final(self)@ == without_entry(old(self)@, parent, name@),
    {
        self.lookups.remove(parent, name);
    }

    /// The size that the buffered writes of an inode give its attributes.
    fn overlay_attr_size(&self, ino: Ino, attr: FileAttr) -> (r: FileAttr)
        ensures
            r == attr_over(attr, dirty_of(self@, ino)),
    {
        let mut attr: FileAttr = attr;
        match self.write_back.get(&ino) {
            None => {},
            Some(wb) => {
                let ghost d = extent_views(wb.dirty@);
                let mut end: u64 = attr.size;
                let mut i: usize = 0;
                assert(d.take(0) =~= Seq::empty());
                while i < wb.dirty.len()
                    invariant
                        i <= wb.dirty@.len(),
                        d == extent_views(wb.dirty@),
                        end == size_over(attr.size, d.take(i as int)),
                    decreases wb.dirty@.len() - i,
                {
                    proof {
                        assert(d.take(i + 1).drop_last() =~= d.take(i as int));
                        assert(d.take(i + 1).last() == d[i as int]);
                    }
                    let e: u64 = end_of(wb.dirty[i].offset, bytes_slice(&wb.dirty[i].data).len());
                    if e > end {
                        end = e;
                    }
                    i += 1;
                }
                assert(d.take(d.len() as int) =~= d);
                attr.size = end;
            },
        }
        attr
    }

    /// Look for attributes in the cache: `None` asks the host.
    pub fn getattr_begin(&mut self, now: u64, ino: Ino) -> (r: Option<FileAttr>)
        requires
            old(self).wf(),
        ensures
            final(self).wf(),
            final(self).bounds() == old(self).bounds(),
            r == cached_attr(old(self)@, now, ino),
            final(self)@ == attr_counted(old(self)@, r is Some),
    {
        let cached: Option<AttrEntry> = match self.attrs.get(&ino) {
            Some(e) => Some(*e),
            None => None,
        };
        if let Some(entry) = cached {
            if entry.expires_at > now {
                self.hits_attr = count(self.hits_attr);
                return Some(self.overlay_attr_size(ino, entry.attr));
            }
        }
        self.misses_attr = count(self.misses_attr);
        None
    }

    /// Take in the host's attributes for a question that was asked at `now`.
    pub fn getattr_finish(&mut self, now: u64, ino: Ino, attr: FileAttr) -> (r: FileAttr)
        requires
            old(self).wf(),
        ensures
            final(self).wf(),
            final(self).bounds() == old(self).bounds(),
            r == attr_over(attr, dirty_of(old(self)@, ino)),
            final(self)@ == with_attr(old(self)@, old(self).bounds(), now, ino, attr),
    {
        self.attrs.insert(
            ino,
            AttrEntry { attr, expires_at: expires(now, self.config.attr_ttl) },
        );
        self.overlay_attr_size(ino, attr)
    }
}

impl CacheState {
    /// The generation that was seen of an inode.
    fn seen(&self, ino: Ino) -> (r: u64)
        ensures
            r == generation(self@.gens, ino),
    {
        match self.generations.get(&ino) {
            Some(n) => *n,
            None => 0,
        }
    }

    fn raise(&mut self, ino: Ino, g: u64)
        requires
            old(self).wf(),
        ensures
            final(self).wf(),
            final(self).bounds() == old(self).bounds(),
            final(self)@ == (CacheView { gens: raised(old(self)@.gens, ino, g), ..old(self)@ }),
    {
        let now: u64 = self.seen(ino);
        self.generations.insert(
            ino,
            if g > now {
                g
            } else {
                now
            },
        );
        assert(self@.wb =~= old(self)@.wb);
    }

    fn bump(&mut self, ino: Ino)
        requires
            old(self).wf(),
        ensures
            final(self).wf(),
            final(self).bounds() == old(self).bounds(),
            final(self)@ == (CacheView { gens: bumped(old(self)@.gens, ino), ..old(self)@ }),
    {
        let now: u64 = self.seen(ino);
        self.generations.insert(ino, count(now));
        assert(self@.wb =~= old(self)@.wb);
    }

    /// Keep a chunk that arrived under a generation, unless the inode was seen
    /// at a later one.
    fn chunk_arrived(&mut self, ino: Ino, idx: u64, data: Bytes, g: u64) -> (fresh: bool)
        requires
            old(self).wf(),
        ensures
            final(self).wf(),
            final(self).bounds() == old(self).bounds(),
            fresh == (generation(old(self)@.gens, ino) <= g),
            final(self)@ == with_chunk(
                old(self)@,
                old(self).bounds().content.max_bytes as int,
                ino,
                idx,
                bytes_contents(data),
                g,
            ),
    {
        if self.seen(ino) > g {
            self.stale_fetches_dropped = count(self.stale_fetches_dropped);
            assert(self@.wb =~= old(self)@.wb);
            return false;
        }
        self.content.insert(ino, idx, data);
        assert(self@.wb =~= old(self)@.wb);
        self.raise(ino, g);
        true
    }

    /// Take in a message of the host.
    pub fn apply_push(&mut self, push: Push)
        requires
            old(self).wf(),
            push matches Push::InvalidateData { len, .. } && len > 0 ==> old(
                self,
            ).bounds().content.chunk_size > 0,
        ensures
            final(self).wf(),
            final(self).bounds() == old(self).bounds(),
            final(self)@ == pushed(old(self)@, old(self).bounds().content, push@),
    {
        match push {
            Push::InvalidateAttr { ino } => {
                self.attrs.remove(&ino);
                assert(self@.attrs =~= old(self)@.attrs.remove(ino));
            },
            Push::InvalidateEntry { parent, name, .. } => {
                self.entry_gone(parent, &name);
            },
            Push::InvalidateData { ino, offset, len, generation } => {
                self.attrs.remove(&ino);
                assert(self@.attrs =~= old(self)@.attrs.remove(ino));
                self.content.invalidate_range(ino, offset, len);
                assert(self@.wb =~= old(self)@.wb);
                self.raise(ino, generation);
            },
            Push::Resync { .. } => {
                self.attrs.clear();
                self.lookups.clear();
                self.content = ContentCache::new(self.content.config_snapshot());
                self.generations.clear();
                assert(self@.wb =~= old(self)@.wb);
            },
            Push::Prefill { ino, chunk_idx, chunk_size, data, generation } => {
                // A chunk of another size cannot be addressed here.
                if chunk_size as u64 != self.content.chunk_size() as u64 {
                    return ;
                }
                self.chunk_arrived(ino, chunk_idx, data, generation);
            },
        }
        assert(self@.wb =~= old(self)@.wb);
    }

    /// What becomes of a message of the host, where it is a chunk sent ahead.
    fn prefill_outcome(&self, push: &Push) -> (r: Option<PrefillOutcome>)
        requires
            self.wf(),
        ensures
            r == outcome_of(self@, self.bounds().content, push@),
    {
        match push {
            Push::Prefill { ino, chunk_size, data, generation, .. } => {
                if *chunk_size as u64 != self.content.chunk_size() as u64 {
                    Some(PrefillOutcome::WrongSize)
                } else if self.seen(*ino) > *generation {
                    Some(PrefillOutcome::Stale)
                } else {
                    Some(PrefillOutcome::Accepted(bytes_slice(data).len() as u64))
                }
            },
            _ => None,
        }
    }

    /// Take in a message of the host, and count it where it is a chunk sent
    /// ahead. Gives whether the tally is told now.
    pub fn apply_push_counted(&mut self, push: Push, tally: &mut PrefillTally) -> (report: bool)
        requires
            old(self).wf(),
            push matches Push::InvalidateData { len, .. } && len > 0 ==> old(
                self,
            ).bounds().content.chunk_size > 0,
        ensures
            final(self).wf(),
            final(self).bounds() == old(self).bounds(),
            final(self)@ == pushed(old(self)@, old(self).bounds().content, push@),
            match outcome_of(old(self)@, old(self).bounds().content, push@) {
                Some(o) => {
                    &&& *final(tally) == tallied(*old(tally), o)
                    &&& report == (final(tally).chunks() % (REPORT_INTERVAL as int) == 0)
                },
                None => *final(tally) == *old(tally) && !report,
            },
    {
        let outcome: Option<PrefillOutcome> = self.prefill_outcome(&push);
        self.apply_push(push);
        match outcome {
            Some(o) => tally.count(o),
            None => false,
        }
    }

    /// Buffer a write: it is on top of every read from now on, and waits to be
    /// sent to the host. Gives the number of bytes taken.
    pub fn write(&mut self, ino: Ino, handle: u64, offset: u64, data: &[u8]) -> (n: u32)
        requires
            old(self).wf(),
            data@.len() > 0 ==> old(self).bounds().content.chunk_size > 0,
        ensures
            final(self).wf(),
            final(self).bounds() == old(self).bounds(),
            n == data@.len() as u32,
            final(self)@ == written(
                old(self)@,
                old(self).bounds().content.chunk_size as int,
                ino,
                handle,
                offset,
                data@,
            ),
    {
        let len: usize = data.len();
        let bytes: Bytes = bytes_from(copy_range(data, 0, len));
        assert(data@.subrange(0, len as int) =~= data@);
        self.attrs.remove(&ino);
        assert(self@.attrs =~= old(self)@.attrs.remove(ino));
        self.content.overwrite(ino, offset, len as u64);
        assert(self@.wb =~= old(self)@.wb);
        self.bump(ino);
        let wb: InodeWriteBack = match self.write_back.remove(&ino) {
            Some(wb) => wb,
            None => InodeWriteBack {
                dirty: Vec::new(),
                queue: Vec::new(),
                in_flight: false,
                first_error: None,
            },
        };
        let ghost w = wb_of(old(self)@, ino);
        proof {
            assert(extent_views(Seq::empty()) =~= Seq::<ExtentView>::empty());
            assert(flush_views(Seq::empty()) =~= Seq::<FlushView>::empty());
            assert(wb.look() == w);
        }
        let mut dirty: Vec<Extent> = wb.dirty;
        let mut queue: Vec<FlushWrite> = wb.queue;
        dirty.push(Extent { offset, data: bytes_clone(&bytes) });
        queue.push(FlushWrite { offset, data: bytes, handle });
        proof {
            assert(extent_views(dirty@) =~= w.dirty.push(ExtentView { offset, data: data@ }));
            assert(flush_views(queue@) =~= w.queue.push(FlushView { offset, data: data@, handle }));
        }
        self.write_back.insert(
            ino,
            InodeWriteBack {
                dirty,
                queue,
                in_flight: wb.in_flight,
                first_error: wb.first_error,
            },
        );
        proof {
            assert(self@.wb =~= written(
                old(self)@,
                old(self).bounds().content.chunk_size as int,
                ino,
                handle,
                offset,
                data@,
            ).wb);
        }
        len as u32
    }

    /// Whether so many writes of an inode wait that a writer should wait too.
    pub fn is_backed_up(&self, ino: Ino) -> (r: bool)
        ensures
            r == (wb_of(self@, ino).queue.len() >= FLUSH_QUEUE_CAPACITY),
    {
        match self.write_back.get(&ino) {
            Some(wb) => wb.queue.len() >= FLUSH_QUEUE_CAPACITY,
            None => false,
        }
    }

    /// The next write of an inode to send to the host. One is sent at a time.
    pub fn take_flush(&mut self, ino: Ino) -> (r: Option<FlushWrite>)
        requires
            old(self).wf(),
        ensures
            final(self).wf(),
            final(self).bounds() == old(self).bounds(),
            final(self)@ == flush_taken(old(self)@, ino),
            r is None <==> wb_of(old(self)@, ino).in_flight || wb_of(old(self)@, ino).queue.len()
                == 0,
            r matches Some(x) ==> x@ == wb_of(old(self)@, ino).queue[0],
    {
        match self.write_back.get(&ino) {
            None => {
                return None;
            },
            Some(wb) => {
                if wb.in_flight || wb.queue.len() == 0 {
                    return None;
                }
            },
        }
        match self.write_back.remove(&ino) {
            None => None,
            Some(wb) => {
                let ghost w = wb.look();
                let mut queue: Vec<FlushWrite> = wb.queue;
                let first: FlushWrite = queue.remove(0);
                assert(flush_views(queue@) =~= w.queue.drop_first());
                self.write_back.insert(
                    ino,
                    InodeWriteBack {
                        dirty: wb.dirty,
                        queue,
                        in_flight: true,
                        first_error: wb.first_error,
                    },
                );
                proof {
                    assert(self@.wb =~= old(self)@.wb.insert(
                        ino,
                        WriteBackView { queue: w.queue.drop_first(), in_flight: true, ..w },
                    ));
                }
                Some(first)
            },
        }
    }

    /// The host answered the write that was sent: the first failure stays.
    pub fn flush_answered(&mut self, ino: Ino, r: Result<u32, ClientError>)
        requires
            old(self).wf(),
        ensures
            final(self).wf(),
            final(self).bounds() == old(self).bounds(),
            final(self)@ == flush_told(old(self)@, ino, r),
    {
        match self.write_back.remove(&ino) {
            None => {
                assert(self@.wb =~= old(self)@.wb);
            },
            Some(wb) => {
                let ghost w = wb.look();
                let error: Option<ClientError> = match wb.first_error {
                    Some(e) => Some(e),
                    None => match r {
                        Ok(_) => None,
                        Err(e) => Some(e),
                    },
                };
                self.write_back.insert(
                    ino,
                    InodeWriteBack {
                        dirty: wb.dirty,
                        queue: wb.queue,
                        in_flight: false,
                        first_error: error,
                    },
                );
                proof {
                    assert(self@.wb =~= old(self)@.wb.insert(
                        ino,
                        WriteBackView { in_flight: false, first_error: error, ..w },
                    ));
                }
            },
        }
    }

    /// Whether every write of an inode was sent and answered.
    pub fn is_drained(&self, ino: Ino) -> (r: bool)
        ensures
            r == all_answered(wb_of(self@, ino)),
    {
        match self.write_back.get(&ino) {
            Some(wb) => wb.queue.len() == 0 && !wb.in_flight,
            None => true,
        }
    }

    /// The writes of an inode have reached the host, or failed: the host's
    /// bytes count again. Gives the first failure since this was last asked.
    pub fn drained(&mut self, ino: Ino) -> (r: Result<(), ClientError>)
        requires
            old(self).wf(),
            all_answered(wb_of(old(self)@, ino)),
        ensures
            final(self).wf(),
            final(self).bounds() == old(self).bounds(),
            r == drain_result(wb_of(old(self)@, ino)),
            final(self)@ == settled(old(self)@, ino),
    {
        match self.write_back.remove(&ino) {
            None => {
                assert(self@.wb =~= old(self)@.wb);
                Ok(())
            },
            Some(wb) => {
                let ghost w = wb.look();
                let error: Option<ClientError> = wb.first_error;
                self.write_back.insert(
                    ino,
                    InodeWriteBack {
                        dirty: Vec::new(),
                        queue: wb.queue,
                        in_flight: wb.in_flight,
                        first_error: None,
                    },
                );
                proof {
                    assert(extent_views(Seq::empty()) =~= Seq::<ExtentView>::empty());
                    assert(self@.wb =~= settled(old(self)@, ino).wb);
                }
                match error {
                    Some(e) => Err(e),
                    None => Ok(()),
                }
            },
        }
    }

    /// The next step of a sync or a release of an inode: the writes before it
    /// are sent, one after the other, and answered; only then is the host told
    /// of it, and nothing stays buffered.
    pub fn barrier_step(&mut self, ino: Ino) -> (r: BarrierStep)
        requires
            old(self).wf(),
        ensures
            final(self).wf(),
            final(self).bounds() == old(self).bounds(),
            ({
                let w = wb_of(old(self)@, ino);
                if w.in_flight {
                    r is Wait && final(self)@ == old(self)@
                } else if w.queue.len() > 0 {
                    &&& r matches BarrierStep::Send(x)
                    &&& x@ == w.queue[0]
                    &&& final(self)@ == flush_taken(old(self)@, ino)
                } else {
                    &&& r matches BarrierStep::Forward(flushed)
                    &&& flushed == drain_result(w)
                    &&& final(self)@ == settled(old(self)@, ino)
                }
            }),
    {
        match self.take_flush(ino) {
            Some(x) => BarrierStep::Send(x),
            None => {
                if self.is_drained(ino) {
                    BarrierStep::Forward(self.drained(ino))
                } else {
                    BarrierStep::Wait
                }
            },
        }
    }

    /// The host set the size of a file.
    pub fn truncated(&mut self, ino: Ino)
        requires
            old(self).wf(),
        ensures
            final(self).wf(),
            final(self).bounds() == old(self).bounds(),
            final(self)@ == truncated(
                old(self)@,
                old(self).bounds().content.chunk_size as int,
                ino,
            ),
    {
        self.attrs.remove(&ino);
        assert(self@.attrs =~= old(self)@.attrs.remove(ino));
        self.content.invalidate_ino(ino);
        assert(self@.wb =~= old(self)@.wb);
        self.bump(ino);
    }

    /// The host set the permissions of a file.
    pub fn chmodded(&mut self, ino: Ino)
        requires
            old(self).wf(),
        ensures
            final(self).wf(),
            final(self).bounds() == old(self).bounds(),
            final(self)@ == chmodded(old(self)@, ino),
    {
        self.attrs.remove(&ino);
        assert(self@.attrs =~= old(self)@.attrs.remove(ino));
        assert(self@.wb =~= old(self)@.wb);
        self.bump(ino);
    }

    /// What the cache has counted and holds.
    pub fn stats(&self) -> (r: CacheStats)
        requires
            self.wf(),
        ensures
            r.attr_entries == self@.attrs.len(),
            r.lookup_entries == self@.lookups.len(),
            r.content_chunks == self@.chunks.len(),
            r.content_bytes == crate::remote::content_cache::total(self@.chunks),
            r.hits_attr == self@.counts.hits_attr,
            r.misses_attr == self@.counts.misses_attr,
            r.hits_lookup == self@.counts.hits_lookup,
            r.misses_lookup == self@.counts.misses_lookup,
            r.hits_negative == self@.counts.hits_negative,
            r.hits_content == self@.counts.content.hits,
            r.misses_content == self@.counts.content.misses,
            r.evictions_content == self@.counts.content.evictions,
            r.bytes_evicted_content == self@.counts.content.bytes_evicted,
            r.stale_fetches_dropped == self@.counts.stale_fetches_dropped,
    {
        let (hits, misses, evictions, bytes_evicted): (u64, u64, u64, u64) =
            self.content.tally();
        CacheStats {
            attr_entries: self.attrs.len(),
            lookup_entries: self.lookups.len(),
            content_chunks: self.content.len(),
            hits_attr: self.hits_attr,
            misses_attr: self.misses_attr,
            hits_lookup: self.hits_lookup,
            misses_lookup: self.misses_lookup,
            hits_negative: self.hits_negative,
            hits_content: hits,
            misses_content: misses,
            evictions_content: evictions,
            bytes_evicted_content: bytes_evicted,
            stale_fetches_dropped: self.stale_fetches_dropped,
            content_bytes: self.content.bytes_used(),
        }
    }
}

/// What a sync or a release asks for next.
#[derive(Debug)]
pub enum BarrierStep {
    /// Send this write to the host.
    Send(FlushWrite),
    /// Wait until the write that is being sent is answered.
    Wait,
    /// Tell the host of the sync or release: the writes before it are done,
    /// and this is what became of them.
    Forward(Result<(), ClientError>),
}

/// What a sync or a release gives, from what became of the writes before it and
/// what the host said to the sync or release itself.
pub fn barrier_end(flushed: Result<(), ClientError>, host: Result<(), ClientError>) -> (r: Result<
    (),
    ClientError,
>)
    ensures
        r == barrier_result(flushed, host),
{
    match flushed {
        Err(e) => Err(e),
        Ok(_) => host,
    }
}

/// In every cache the writes of each inode go in order.
pub proof fn law_writes_in_order(c: CacheState, ino: Ino)
    requires
        c.wf(),
    ensures
        lined_up(wb_of(c@, ino)),
{
    if c@.wb.dom().contains(ino) {
        assert(lined_up(c.write_back@[ino].look()));
    }
}

/// The first failure: a later one does not take its place.
pub open spec fn first_error(known: Option<ClientError>, r: Result<u32, ClientError>) -> Option<
    ClientError,
> {
    match known {
        Some(e) => Some(e),
        None => match r {
            Ok(_) => None,
            Err(e) => Some(e),
        },
    }
}

/// The cache after the writes of an inode were drained.
pub open spec fn settled(v: CacheView, ino: Ino) -> CacheView {
    if v.wb.dom().contains(ino) {
        CacheView {
            wb: v.wb.insert(
                ino,
                WriteBackView { dirty: Seq::empty(), first_error: None, ..v.wb[ino] },
            ),
            ..v
        }
    } else {
        v
    }
}

/// Where `len` bytes from `offset` on end.
fn end_of(offset: u64, len: usize) -> (r: u64)
    ensures
        r == (if offset + len <= u64::MAX {
            offset + len
        } else {
            u64::MAX as int
        }),
{
    if offset <= u64::MAX - len as u64 {
        offset + len as u64
    } else {
        u64::MAX
    }
}

/// A read in progress: the bytes of the host that were gathered so far.
pub struct ReadOp {
    ino: Ino,
    offset: u64,
    size: u32,
    got: Vec<u8>,
    done: bool,
}

/// What a read in progress knows.
pub struct ReadView {
    pub ino: Ino,
    pub offset: u64,
    pub size: u32,
    pub got: Seq<u8>,
    pub done: bool,
}

impl View for ReadOp {
    type V = ReadView;

    closed spec fn view(&self) -> ReadView {
        ReadView {
            ino: self.ino,
            offset: self.offset,
            size: self.size,
            got: self.got@,
            done: self.done,
        }
    }
}

/// A chunk to ask the host for.
#[derive(Debug, Clone, Copy, PartialEq, Eq, Structural)]
pub struct Fetch {
    pub chunk_idx: u64,
    pub offset: u64,
    pub size: u32,
    /// The generation that was seen before asking.
    pub seen_before: u64,
}

/// What a read needs next.
#[derive(Debug, Clone, Copy, PartialEq, Eq, Structural)]
pub enum ReadStep {
    /// Go on: a chunk was taken from the cache.
    Continue,
    /// Ask the host for a chunk, then go on.
    Fetch(Fetch),
    /// The bytes of the host are gathered.
    Done,
}

impl ReadView {
    /// A read that is not done has room for more, and stays within the numbers.
    pub open spec fn wf(self) -> bool {
        &&& self.offset + self.size <= u64::MAX
        &&& self.got.len() <= self.size
        &&& !self.done ==> self.got.len() < self.size
    }

    /// Where the next byte stands.
    pub open spec fn at(self) -> int {
        self.offset + self.got.len()
    }
}

/// A read after a chunk was taken in: the bytes from the present position on
/// are added. A chunk shorter than the chunk size ends the file, and with it
/// the read.
pub open spec fn fed(r: ReadView, chunk_size: int, b: Seq<u8>) -> ReadView {
    let got = r.got + window(b, r.at() % chunk_size, r.size - r.got.len());
    ReadView { got, done: b.len() < chunk_size || got.len() >= r.size, ..r }
}

/// The cache after the host answered a fetch.
pub open spec fn fetched(
    v: CacheView,
    max: int,
    ino: Ino,
    f: Fetch,
    data: Seq<u8>,
    g: u64,
) -> CacheView {
    let w = with_chunk(v, max, ino, f.chunk_idx, data, g);
    if generation(v.gens, ino) > g {
        w
    } else {
        CacheView { gens: raised(w.gens, ino, f.seen_before), ..w }
    }
}

/// Whether reads of this size go to the host directly.
pub open spec fn passes_through(chunk_size: int, size: u32) -> bool {
    chunk_size == 0 || size > 4 * chunk_size
}

/// `n` zero bytes.
pub open spec fn zeros(n: nat) -> Seq<u8> {
    Seq::new(n, |i: int| 0u8)
}

/// What a read gives: the bytes of the host, with the buffered writes on top.
/// Between the end of the host's file and a buffered write lie zeros.
pub open spec fn read_over(got: Seq<u8>, offset: u64, size: u32, dirty: Seq<ExtentView>) -> Seq<
    u8,
> {
    window(applied(zeros(offset as nat) + got, dirty), offset as int, size as int)
}

/// One buffered write on top of a part of a file.
proof fn lemma_overlay(x: Seq<u8>, w: Seq<u8>, offset: int, size: int, e: ExtentView)
    requires
        0 <= offset,
        0 <= size,
        offset + size <= u64::MAX,
        w == window(x, offset, size),
    ensures
        ({
            let r = window(spliced(x, e.offset as int, e.data), offset, size);
            let end = e.offset + e.data.len();
            let reach = if end <= offset {
                0int
            } else if end >= offset + size {
                size
            } else {
                end - offset
            };
            &&& r.len() == (if reach > w.len() {
                reach
            } else {
                w.len() as int
            })
            &&& forall|i: int|
                #![trigger r[i]]
                0 <= i < r.len() ==> r[i] == (if e.offset <= offset + i < end {
                    e.data[offset + i - e.offset]
                } else if i < w.len() {
                    w[i]
                } else {
                    0u8
                })
        }),
{
}

impl CacheState {
    /// Start a read. `None`: a read this large asks the host for all of it at
    /// once, past the cache; `read_direct` gives its result.
    pub fn read_begin(&self, ino: Ino, offset: u64, size: u32) -> (r: Option<ReadOp>)
        requires
            offset + size <= u64::MAX,
        ensures
            r is None <==> passes_through(self.bounds().content.chunk_size as int, size),
            r matches Some(op) ==> op@.wf() && op@ == (ReadView {
                ino,
                offset,
                size,
                got: Seq::empty(),
                done: size == 0,
            }),
    {
        let chunk_size: u64 = self.config.content.chunk_size as u64;
        if chunk_size == 0 || (chunk_size <= 0xffff_ffff && size as u64 > chunk_size * 4) {
            return None;
        }
        Some(ReadOp { ino, offset, size, got: Vec::new(), done: size == 0 })
    }

    /// Do one step of a read: take a chunk from the cache, or name the chunk
    /// that the host must be asked for.
    pub fn read_step(&mut self, op: &mut ReadOp) -> (r: ReadStep)
        requires
            old(self).wf(),
            old(op)@.wf(),
            old(self).bounds().content.chunk_size > 0,
        ensures
            final(self).wf(),
            final(self).bounds() == old(self).bounds(),
            final(op)@.wf(),
            ({
                let cs = old(self).bounds().content.chunk_size as int;
                let v = old(self)@;
                let o = old(op)@;
                let idx = (o.at() / cs) as u64;
                if o.done {
                    &&& r == ReadStep::Done
                    &&& final(self)@ == v
                    &&& final(op)@ == o
                } else {
                    match kept(v.chunks, o.ino, idx) {
                        Some(b) => {
                            &&& r == ReadStep::Continue
                            &&& final(op)@ == fed(o, cs, b)
                            &&& final(self)@ == (CacheView {
                                chunks: touched(v.chunks, o.ino, idx),
                                counts: CacheCounts {
                                    content: Counts {
                                        hits: counted(v.counts.content.hits),
                                        ..v.counts.content
                                    },
                                    ..v.counts
                                },
                                ..v
                            })
                            &&& !final(op)@.done ==> final(op)@.got.len() > o.got.len()
                        },
                        None => {
                            &&& r == ReadStep::Fetch(
                                Fetch {
                                    chunk_idx: idx,
                                    offset: (idx * cs) as u64,
                                    size: cs as u32,
                                    seen_before: generation(v.gens, o.ino),
                                },
                            )
                            &&& idx * cs <= o.at()
                            &&& final(op)@ == o
                            &&& final(self)@ == (CacheView {
                                counts: CacheCounts {
                                    content: Counts {
                                        misses: counted(v.counts.content.misses),
                                        ..v.counts.content
                                    },
                                    ..v.counts
                                },
                                ..v
                            })
                        },
                    }
                }
            }),
    {
        if op.done {
            return ReadStep::Done;
        }
        let chunk_size: u64 = self.config.content.chunk_size as u64;
        let cur: u64 = op.offset + op.got.len() as u64;
        let idx: u64 = cur / chunk_size;
        proof {
            lemma_chunk_start(cur as int, chunk_size as int);
        }
        match self.content.get(op.ino, idx) {
            Some(b) => {
                self.feed(op, &b);
                assert(self@.wb =~= old(self)@.wb);
                ReadStep::Continue
            },
            None => {
                assert(self@.chunks =~= old(self)@.chunks);
                assert(self@.wb =~= old(self)@.wb);
                ReadStep::Fetch(
                    Fetch {
                        chunk_idx: idx,
                        offset: idx * chunk_size,
                        size: chunk_size as u32,
                        seen_before: self.seen(op.ino),
                    },
                )
            },
        }
    }

    /// Add the bytes of a chunk to a read.
    fn feed(&self, op: &mut ReadOp, b: &Bytes)
        requires
            self.bounds().content.chunk_size > 0,
            old(op)@.wf(),
            !old(op)@.done,
        ensures
            final(op)@.wf(),
            final(op)@ == fed(
                old(op)@,
                self.bounds().content.chunk_size as int,
                bytes_contents(*b),
            ),
            !final(op)@.done ==> final(op)@.got.len() > old(op)@.got.len(),
    {
        let chunk_size: u64 = self.config.content.chunk_size as u64;
        let cur: u64 = op.offset + op.got.len() as u64;
        let off: u64 = cur % chunk_size;
        let bytes: &[u8] = bytes_slice(b);
        let len: usize = bytes.len();
        let ghost before = op.got@;
        if off < len as u64 {
            let start: usize = off as usize;
            let room: usize = op.size as usize - op.got.len();
            let end: usize = if room >= len - start {
                len
            } else {
                start + room
            };
            let mut more: Vec<u8> = copy_range(bytes, start, end);
            op.got.append(&mut more);
        }
        proof {
            let w = window(
                bytes_contents(*b),
                old(op)@.at() % (chunk_size as int),
                old(op)@.size - before.len(),
            );
            assert(op.got@ =~= before + w);
        }
        op.done = (len as u64) < chunk_size || op.got.len() >= op.size as usize;
    }

    /// The host answered a fetch with the content of the chunk and its
    /// generation: add it to the read, and keep it unless it is stale.
    pub fn read_fetched(&mut self, op: &mut ReadOp, fetch: Fetch, data: Bytes, response_gen: u64)
        requires
            old(self).wf(),
            old(op)@.wf(),
            !old(op)@.done,
            old(self).bounds().content.chunk_size > 0,
        ensures
            final(self).wf(),
            final(self).bounds() == old(self).bounds(),
            final(op)@.wf(),
            final(op)@ == fed(
                old(op)@,
                old(self).bounds().content.chunk_size as int,
                bytes_contents(data),
            ),
            !final(op)@.done ==> final(op)@.got.len() > old(op)@.got.len(),
            final(self)@ == fetched(
                old(self)@,
                old(self).bounds().content.max_bytes as int,
                old(op)@.ino,
                fetch,
                bytes_contents(data),
                response_gen,
            ),
    {
        let ino: Ino = op.ino;
        self.feed(op, &data);
        if self.chunk_arrived(ino, fetch.chunk_idx, data, response_gen) {
            self.raise(ino, fetch.seen_before);
        }
    }

    /// What a large read gives: the bytes that the host sent, with the buffered
    /// writes on top.
    pub fn read_direct(&self, ino: Ino, offset: u64, size: u32, data: &Bytes) -> (r: Bytes)
        requires
            offset + size <= u64::MAX,
        ensures
            bytes_contents(r) == read_over(
                window(bytes_contents(*data), 0, size as int),
                offset,
                size,
                dirty_of(self@, ino),
            ),
    {
        let bytes: &[u8] = bytes_slice(data);
        let end: usize = if bytes.len() > size as usize {
            size as usize
        } else {
            bytes.len()
        };
        let got: Vec<u8> = copy_range(bytes, 0, end);
        assert(got@ =~= window(bytes_contents(*data), 0, size as int));
        self.read_end(ReadOp { ino, offset, size, got, done: true })
    }

    /// What a read gives: the gathered bytes with the buffered writes on top.
    pub fn read_end(&self, op: ReadOp) -> (r: Bytes)
        requires
            op@.wf(),
        ensures
            bytes_contents(r) == read_over(
                op@.got,
                op@.offset,
                op@.size,
                dirty_of(self@, op@.ino),
            ),
    {
        let ghost base = zeros(op@.offset as nat) + op@.got;
        let offset: u64 = op.offset;
        let size: u32 = op.size;
        let ino: Ino = op.ino;
        let mut out: Vec<u8> = op.got;
        assert(out@ =~= window(base, offset as int, size as int));
        match self.write_back.get(&ino) {
            None => {},
            Some(wb) => {
                let ghost d = extent_views(wb.dirty@);
                let mut i: usize = 0;
                assert(d.take(0) =~= Seq::empty());
                while i < wb.dirty.len()
                    invariant
                        i <= wb.dirty@.len(),
                        d == extent_views(wb.dirty@),
                        offset + size <= u64::MAX,
                        out@ == window(applied(base, d.take(i as int)), offset as int, size as int),
                    decreases wb.dirty@.len() - i,
                {
                    proof {
                        assert(d.take(i + 1).drop_last() =~= d.take(i as int));
                        assert(d.take(i + 1).last() == d[i as int]);
                        lemma_overlay(
                            applied(base, d.take(i as int)),
                            out@,
                            offset as int,
                            size as int,
                            d[i as int],
                        );
                    }
                    overlay_extent(
                        &mut out,
                        offset,
                        size,
                        wb.dirty[i].offset,
                        bytes_slice(&wb.dirty[i].data),
                    );
                    assert(out@ =~= window(
                        applied(base, d.take(i + 1)),
                        offset as int,
                        size as int,
                    ));
                    i += 1;
                }
                assert(d.take(d.len() as int) =~= d);
            },
        }
        bytes_from(out)
    }
}

/// Put one buffered write on top of the part of a file that starts at `offset`
/// and is at most `size` bytes long.
fn overlay_extent(out: &mut Vec<u8>, offset: u64, size: u32, at: u64, data: &[u8])
    requires
        offset + size <= u64::MAX,
        old(out)@.len() <= size,
    ensures
        ({
            let w = old(out)@;
            let r = final(out)@;
            let end = at + data@.len();
            let reach = if end <= offset {
                0int
            } else if end >= offset + size {
                size as int
            } else {
                end - offset
            };
            &&& r.len() == (if reach > w.len() {
                reach
            } else {
                w.len() as int
            })
            &&& forall|i: int|
                #![trigger r[i]]
                0 <= i < r.len() ==> r[i] == (if at <= offset + i < end {
                    data@[offset + i - at]
                } else if i < w.len() {
                    w[i]
                } else {
                    0u8
                })
        }),
{
    let ghost w = out@;
    let end: u64 = end_of(at, data.len());
    let limit: u64 = offset + size as u64;
    if end <= offset {
        return ;
    }
    let stop: u64 = if end < limit {
        end
    } else {
        limit
    };
    let reach: usize = (stop - offset) as usize;
    while out.len() < reach
        invariant
            w.len() <= out@.len(),
            out@.len() <= reach || out@.len() == w.len(),
            forall|i: int|
                #![trigger out@[i]]
                0 <= i < out@.len() ==> out@[i] == (if i < w.len() {
                    w[i]
                } else {
                    0u8
                }),
        decreases reach - out@.len(),
    {
        out.push(0);
    }
    let ghost grown = out@;
    let mut p: u64 = if at > offset {
        at
    } else {
        offset
    };
    let ghost first = p;
    while p < stop
        invariant
            offset <= first <= p,
            at <= p,
            p <= stop || p == first,
            first == (if at > offset {
                at
            } else {
                offset
            }),
            stop <= limit,
            stop <= at + data@.len(),
            reach == stop - offset,
            reach <= out@.len(),
            out@.len() == grown.len(),
            forall|i: int|
                #![trigger out@[i]]
                0 <= i < out@.len() ==> out@[i] == (if first <= offset + i < p {
                    data@[offset + i - at]
                } else {
                    grown[i]
                }),
        decreases stop - p,
    {
        out.set((p - offset) as usize, data[(p - at) as usize]);
        p += 1;
    }
}

proof fn lemma_chunk_start(cur: int, chunk_size: int)
    requires
        cur >= 0,
        chunk_size > 0,
    ensures
        cur / chunk_size * chunk_size <= cur,
        cur / chunk_size * chunk_size + cur % chunk_size == cur,
        0 <= cur / chunk_size <= cur,
{
    assert(cur / chunk_size * chunk_size <= cur && cur / chunk_size * chunk_size + cur % chunk_size
        == cur && 0 <= cur / chunk_size <= cur) by (nonlinear_arith)
        requires
            cur >= 0,
            chunk_size > 0,
    ;
}

/// How long what was learned is kept: for its time from now on, and up to the
/// largest time at most.
pub proof fn law_kept_times(now: u64, ttl: u64)
    ensures
        now + ttl <= u64::MAX ==> expiry(now, ttl) == now + ttl,
        now + ttl > u64::MAX ==> expiry(now, ttl) == u64::MAX,
{
}

/// What the answer to a lookup leaves behind: what was found is known under
/// its name for its time, and its attributes under its number for theirs; that
/// there is nothing is known for its time; any other failure leaves nothing.
/// Other names stay as they are.
pub proof fn law_lookup_learned(
    v: CacheView,
    cfg: CacheConfig,
    now: u64,
    parent: Ino,
    name: Seq<char>,
    attr: FileAttr,
    e: ClientError,
    k: (Ino, Seq<char>),
)
    requires
        k != (parent, name),
    ensures
        ({
            let w = lookup_answered(v, cfg, now, parent, name, Ok(attr));
            &&& w.lookups.dom().contains((parent, name))
            &&& w.lookups[(parent, name)] == (LookupEntry::Found {
                attr,
                expires_at: expiry(now, cfg.lookup_ttl),
            })
            &&& w.attrs.dom().contains(attr.ino)
            &&& w.attrs[attr.ino].attr == attr
            &&& w.attrs[attr.ino].expires_at == expiry(now, cfg.attr_ttl)
            &&& w.lookups.dom().contains(k) <==> v.lookups.dom().contains(k)
            &&& w.lookups[k] == v.lookups[k]
            &&& w.chunks == v.chunks && w.gens == v.gens && w.wb == v.wb
        }),
        e == ClientError::Errno(2) ==> {
            let w = lookup_answered(v, cfg, now, parent, name, Err(e));
            &&& w.lookups == v.lookups.insert(
                (parent, name),
                LookupEntry::NotFound { expires_at: expiry(now, cfg.negative_ttl) },
            )
            &&& w.attrs == v.attrs
        },
        e != ClientError::Errno(2) ==> lookup_answered(v, cfg, now, parent, name, Err(e)) == v,
{
}

/// What a lookup finds in the cache: what is known of the name and not
/// expired, and nothing else.
pub proof fn law_lookup_found(
    v: CacheView,
    now: u64,
    parent: Ino,
    name: Seq<char>,
    attr: FileAttr,
    until: u64,
)
    ensures
        !v.lookups.dom().contains((parent, name)) ==> cached_lookup(v, now, parent, name) is None,
        v.lookups.dom().contains((parent, name)) && v.lookups[(parent, name)]
            == (LookupEntry::Found { attr, expires_at: until }) ==> cached_lookup(
            v,
            now,
            parent,
            name,
        ) == (if until > now {
            Some(Ok::<FileAttr, ClientError>(attr))
        } else {
            None
        }),
        v.lookups.dom().contains((parent, name)) && v.lookups[(parent, name)]
            == (LookupEntry::NotFound { expires_at: until }) ==> cached_lookup(
            v,
            now,
            parent,
            name,
        ) == (if until > now {
            Some(Err::<FileAttr, ClientError>(ClientError::Errno(2)))
        } else {
            None
        }),
{
}

/// What a page with attributes leaves behind: each of its names is known with
/// its attributes, the last of a name that comes twice; other names stay.
pub proof fn law_page_learned(
    v: CacheView,
    cfg: CacheConfig,
    now: u64,
    parent: Ino,
    entries: Seq<EntryPlusView>,
    i: int,
    k: (Ino, Seq<char>),
)
    requires
        0 <= i < entries.len(),
        forall|j: int| i < j < entries.len() ==> (#[trigger] entries[j]).name != entries[i].name,
        k.0 != parent || forall|j: int|
            0 <= j < entries.len() ==> (#[trigger] entries[j]).name != k.1,
    ensures
        ({
            let w = with_entries(v, cfg, now, parent, entries);
            &&& w.lookups.dom().contains((parent, entries[i].name))
            &&& w.lookups[(parent, entries[i].name)] == (LookupEntry::Found {
                attr: entries[i].attr,
                expires_at: expiry(now, cfg.lookup_ttl),
            })
            &&& w.attrs.dom().contains(entries[i].attr.ino)
            &&& w.lookups.dom().contains(k) <==> v.lookups.dom().contains(k)
            &&& w.lookups[k] == v.lookups[k]
            &&& w.chunks == v.chunks && w.gens == v.gens && w.wb == v.wb && w.counts == v.counts
        }),
    decreases entries.len(),
{
    let rest = entries.drop_last();
    let last = entries.last();
    assert(entries[entries.len() - 1] == last);
    lemma_page_others(v, cfg, now, parent, rest, k);
    if i < rest.len() {
        assert forall|j: int| i < j < rest.len() implies (#[trigger] rest[j]).name
            != rest[i].name by {
            assert(rest[j] == entries[j]);
        }
        if k.0 == parent {
            assert forall|j: int| 0 <= j < rest.len() implies (#[trigger] rest[j]).name != k.1 by {
                assert(rest[j] == entries[j]);
            }
        }
        law_page_learned(v, cfg, now, parent, rest, i, k);
    }
}

proof fn lemma_page_others(
    v: CacheView,
    cfg: CacheConfig,
    now: u64,
    parent: Ino,
    entries: Seq<EntryPlusView>,
    k: (Ino, Seq<char>),
)
    ensures
        ({
            let w = with_entries(v, cfg, now, parent, entries);
            &&& k.0 != parent || (forall|j: int|
                0 <= j < entries.len() ==> (#[trigger] entries[j]).name != k.1) ==> (
            w.lookups.dom().contains(k) <==> v.lookups.dom().contains(k)) && w.lookups[k]
                == v.lookups[k]
            &&& w.chunks == v.chunks && w.gens == v.gens && w.wb == v.wb && w.counts == v.counts
        }),
    decreases entries.len(),
{
    if entries.len() > 0 {
        let rest = entries.drop_last();
        lemma_page_others(v, cfg, now, parent, rest, k);
        assert(entries[entries.len() - 1] == entries.last());
        if k.0 == parent && (forall|j: int|
            0 <= j < entries.len() ==> (#[trigger] entries[j]).name != k.1) {
            assert forall|j: int| 0 <= j < rest.len() implies (#[trigger] rest[j]).name != k.1 by {
                assert(rest[j] == entries[j]);
            }
        }
    }
}

/// What is counted: a name found, found missing, or not known; attributes
/// known or not. Each once, and nothing else changes.
pub proof fn law_lookups_counted(v: CacheView, attr: FileAttr, e: ClientError)
    requires
        v.counts.hits_lookup < u64::MAX,
        v.counts.hits_negative < u64::MAX,
        v.counts.misses_lookup < u64::MAX,
        v.counts.hits_attr < u64::MAX,
        v.counts.misses_attr < u64::MAX,
    ensures
        lookup_counted(v, Some(Ok(attr))).counts == (CacheCounts {
            hits_lookup: (v.counts.hits_lookup + 1) as u64,
            ..v.counts
        }),
        lookup_counted(v, Some(Err(e))).counts == (CacheCounts {
            hits_negative: (v.counts.hits_negative + 1) as u64,
            ..v.counts
        }),
        lookup_counted(v, None).counts == (CacheCounts {
            misses_lookup: (v.counts.misses_lookup + 1) as u64,
            ..v.counts
        }),
        attr_counted(v, true).counts == (CacheCounts {
            hits_attr: (v.counts.hits_attr + 1) as u64,
            ..v.counts
        }),
        attr_counted(v, false).counts == (CacheCounts {
            misses_attr: (v.counts.misses_attr + 1) as u64,
            ..v.counts
        }),
        lookup_counted(v, None).lookups == v.lookups,
        lookup_counted(v, None).attrs == v.attrs,
        attr_counted(v, true).attrs == v.attrs,
{
}

/// What each message of the host drops, and what it leaves: attributes alone;
/// a name alone; the attributes and the content of an inode in a range, whose
/// generation goes up to the one told and never down; or all that was learned.
/// Buffered writes stay whatever comes.
pub proof fn law_messages_drop(
    v: CacheView,
    content: ContentCacheConfig,
    ino: Ino,
    name: Seq<char>,
    known: Option<Ino>,
    offset: u64,
    len: u64,
    g: u64,
    other: Ino,
)
    requires
        other != ino,
    ensures
        ({
            let w = pushed(v, content, PushView::InvalidateAttr { ino });
            &&& !w.attrs.dom().contains(ino)
            &&& w.attrs.dom().contains(other) <==> v.attrs.dom().contains(other)
            &&& w.attrs[other] == v.attrs[other]
            &&& w.lookups == v.lookups && w.chunks == v.chunks && w.gens == v.gens && w.wb == v.wb
        }),
        ({
            let w = pushed(v, content, PushView::InvalidateEntry { parent: ino, name, ino: known });
            &&& !w.lookups.dom().contains((ino, name))
            &&& forall|k: (Ino, Seq<char>)|
                k != (ino, name) ==> (#[trigger] w.lookups.dom().contains(k)
                    <==> v.lookups.dom().contains(k)) && w.lookups[k] == v.lookups[k]
            &&& w.attrs == v.attrs && w.chunks == v.chunks && w.gens == v.gens && w.wb == v.wb
        }),
        ({
            let w = pushed(v, content, PushView::InvalidateData { ino, offset, len, generation: g });
            let seen = if v.gens.dom().contains(ino) {
                v.gens[ino]
            } else {
                0
            };
            &&& !w.attrs.dom().contains(ino)
            &&& w.attrs[other] == v.attrs[other]
            &&& w.gens[ino] == (if g > seen {
                g
            } else {
                seen
            })
            &&& w.gens.dom().contains(other) <==> v.gens.dom().contains(other)
            &&& w.gens[other] == v.gens[other]
            &&& w.lookups == v.lookups && w.wb == v.wb
        }),
        ({
            let w = pushed(v, content, PushView::Resync { epoch: g });
            &&& w.attrs.dom() == Set::<Ino>::empty()
            &&& w.lookups.dom() == Set::<(Ino, Seq<char>)>::empty()
            &&& w.chunks.len() == 0
            &&& w.gens.dom() == Set::<Ino>::empty()
            &&& w.wb == v.wb
        }),
{
}

/// What a write leaves behind: it is buffered behind the others of its inode
/// and waits to be sent behind them, with its handle; the attributes of the
/// inode are dropped and its generation goes up. Other inodes stay.
pub proof fn law_write_buffered(
    v: CacheView,
    chunk_size: int,
    ino: Ino,
    handle: u64,
    offset: u64,
    data: Seq<u8>,
    other: Ino,
)
    requires
        other != ino,
    ensures
        ({
            let w = written(v, chunk_size, ino, handle, offset, data);
            let before = wb_of(v, ino);
            &&& w.wb.dom().contains(ino)
            &&& w.wb[ino].dirty == before.dirty.push(ExtentView { offset, data })
            &&& w.wb[ino].queue == before.queue.push(FlushView { offset, data, handle })
            &&& w.wb[ino].in_flight == before.in_flight
            &&& w.wb[ino].first_error == before.first_error
            &&& !w.attrs.dom().contains(ino)
            &&& w.attrs[other] == v.attrs[other]
            &&& w.wb.dom().contains(other) <==> v.wb.dom().contains(other)
            &&& w.wb[other] == v.wb[other]
            &&& w.gens[other] == v.gens[other]
            &&& w.lookups == v.lookups
        }),
        wb_of(v, ino).dirty.len() == 0 || v.wb.dom().contains(ino),
{
}

/// Writes are sent one at a time and in order: the first that waits is taken
/// while none is being sent, and the next when the host has answered; the
/// first failure is kept and told once, and then forgotten.
pub proof fn law_writes_sent(v: CacheView, ino: Ino, n: u32, e: ClientError, later: ClientError)
    requires
        v.wb.dom().contains(ino),
    ensures
        ({
            let w = v.wb[ino];
            let u = flush_taken(v, ino).wb[ino];
            &&& !w.in_flight && w.queue.len() > 0 ==> u.in_flight && u.queue == w.queue.skip(1)
                && u.dirty == w.dirty && u.first_error == w.first_error
            &&& w.in_flight || w.queue.len() == 0 ==> flush_taken(v, ino) == v
        }),
        ({
            let w = v.wb[ino];
            let good = flush_told(v, ino, Ok(n)).wb[ino];
            let bad = flush_told(v, ino, Err(e)).wb[ino];
            &&& !good.in_flight && !bad.in_flight
            &&& good.first_error == w.first_error
            &&& w.first_error is None ==> bad.first_error == Some(e)
            &&& w.first_error is Some ==> bad.first_error == w.first_error
            &&& good.queue == w.queue && good.dirty == w.dirty
        }),
        drain_result(v.wb[ino]) == (match v.wb[ino].first_error {
            Some(e) => Err::<(), ClientError>(e),
            None => Ok(()),
        }),
        settled(v, ino).wb[ino].dirty.len() == 0,
        settled(v, ino).wb[ino].first_error is None,
        barrier_result(Err(e), Err(later)) == Err::<(), ClientError>(e),
        barrier_result(Ok(()), Err(later)) == Err::<(), ClientError>(later),
        barrier_result(Ok(()), Ok(())) == Ok::<(), ClientError>(()),
{
    let w = v.wb[ino];
    if w.queue.len() > 0 {
        assert(w.queue.drop_first() =~= w.queue.skip(1));
    }
}

/// A read goes to the host directly where it is longer than four chunks, and
/// always where nothing is kept in chunks; a queue of writes is full at two
/// hundred and fifty-six; what is learned is kept for one second.
pub proof fn law_limits(chunk_size: int, size: u32)
    requires
        chunk_size >= 0,
    ensures
        chunk_size > 0 ==> (passes_through(chunk_size, size) <==> size > chunk_size + chunk_size
            + chunk_size + chunk_size),
        passes_through(0, size),
        FLUSH_QUEUE_CAPACITY == 256,
        SECOND_NS == 1_000_000_000,
        crate::remote::content_cache::DEFAULT_CHUNK_SIZE == 16384,
        crate::remote::content_cache::DEFAULT_MAX_BYTES == 104857600,
{
}

/// After the permissions or the size of a file were set the host is asked for
/// its attributes again, and content that was on its way is not kept; what was
/// kept of other files stays, and so does every name. A file whose size was
/// set keeps no content.
pub proof fn law_file_set(v: CacheView, chunk_size: int, ino: Ino, other: Ino, idx: u64)
    requires
        chunk_size > 0,
        other != ino,
    ensures
        ({
            let a = chmodded(v, ino);
            let b = truncated(v, chunk_size, ino);
            &&& !a.attrs.dom().contains(ino) && !b.attrs.dom().contains(ino)
            &&& a.attrs.dom().contains(other) <==> v.attrs.dom().contains(other)
            &&& b.attrs.dom().contains(other) <==> v.attrs.dom().contains(other)
            &&& v.attrs.dom().contains(other) ==> a.attrs[other] == v.attrs[other]
                && b.attrs[other] == v.attrs[other]
            &&& a.lookups == v.lookups && b.lookups == v.lookups
            &&& a.chunks == v.chunks
            &&& generation(v.gens, ino) < u64::MAX ==> generation(a.gens, ino) == generation(
                v.gens,
                ino,
            ) + 1 && generation(b.gens, ino) == generation(v.gens, ino) + 1
            &&& generation(a.gens, other) == generation(v.gens, other)
            &&& generation(b.gens, other) == generation(v.gens, other)
            &&& kept(b.chunks, ino, idx) is None
            &&& kept(b.chunks, other, idx) == kept(v.chunks, other, idx)
            &&& a.wb == v.wb && b.wb == v.wb
        }),
{
    crate::remote::content_cache::law_invalidate_exact(v.chunks, chunk_size, ino, 0, 0, ino, idx);
    crate::remote::content_cache::law_invalidate_exact(v.chunks, chunk_size, ino, 0, 0, other, idx);
}

/// What a fetch leaves behind: content that is as new as what was seen of its
/// file is kept, and what was seen goes up to it; older content is counted and
/// not kept. Other files are not touched.
pub proof fn law_fetch_kept(
    v: CacheView,
    max: int,
    ino: Ino,
    other: Ino,
    f: Fetch,
    data: Seq<u8>,
    g: u64,
)
    requires
        other != ino,
    ensures
        ({
            let w = fetched(v, max, ino, f, data, g);
            let seen = generation(v.gens, ino);
            &&& seen > g ==> w.chunks == v.chunks && w.gens == v.gens && (
            v.counts.stale_fetches_dropped < u64::MAX ==> w.counts.stale_fetches_dropped
                == v.counts.stale_fetches_dropped + 1)
            &&& seen <= g ==> {
                &&& w.chunks == inserted(v.chunks, max, ino, f.chunk_idx, data)
                &&& generation(w.gens, ino) >= g
                &&& generation(w.gens, ino) >= f.seen_before
                &&& generation(w.gens, ino) == g || generation(w.gens, ino) == f.seen_before
                &&& w.counts.stale_fetches_dropped == v.counts.stale_fetches_dropped
            }
            &&& generation(w.gens, other) == generation(v.gens, other)
            &&& w.attrs == v.attrs && w.lookups == v.lookups
        }),
{
}

} // verus!
