//! What became of the chunks that the host sent ahead, and when to tell of it.

use vstd::prelude::*;

use crate::host::dispatch::generation;
use crate::protocol::PushView;
use crate::remote::cache::CacheView;
use crate::remote::content_cache::{counted, counted_by, ContentCacheConfig};

verus! {

/// After how many chunks the tally is told again.
pub const REPORT_INTERVAL: u64 = 64;

/// What became of a chunk that was sent ahead.
#[derive(Debug, Clone, Copy, PartialEq, Eq, Structural)]
pub enum PrefillOutcome {
    /// It was taken; so many bytes.
    Accepted(u64),
    /// It is of another size than the chunks that are kept.
    WrongSize,
    /// It is older than what was seen of its inode.
    Stale,
}

/// What becomes of a message of the host, where it is a chunk sent ahead.
pub open spec fn outcome_of(v: CacheView, content: ContentCacheConfig, p: PushView) -> Option<
    PrefillOutcome,
> {
    match p {
        PushView::Prefill { ino, chunk_size, data, generation: g, .. } => Some(
            if chunk_size != content.chunk_size {
                PrefillOutcome::WrongSize
            } else if generation(v.gens, ino) > g {
                PrefillOutcome::Stale
            } else {
                PrefillOutcome::Accepted(data.len() as u64)
            },
        ),
        _ => None,
    }
}

/// The chunks that were sent ahead, by what became of them.
#[derive(Debug, Clone, Copy, PartialEq, Eq, Structural)]
pub struct PrefillTally {
    pub accepted: u64,
    pub bytes: u64,
    pub wrong_size: u64,
    pub stale: u64,
}

/// Nothing was sent ahead yet.
pub open spec fn no_chunks() -> PrefillTally {
    PrefillTally { accepted: 0, bytes: 0, wrong_size: 0, stale: 0 }
}

/// The tally after a chunk.
pub open spec fn tallied(t: PrefillTally, o: PrefillOutcome) -> PrefillTally {
    match o {
        PrefillOutcome::Accepted(len) => PrefillTally {
            accepted: counted(t.accepted),
            bytes: counted_by(t.bytes, len as int),
            ..t
        },
        PrefillOutcome::WrongSize => PrefillTally { wrong_size: counted(t.wrong_size), ..t },
        PrefillOutcome::Stale => PrefillTally { stale: counted(t.stale), ..t },
    }
}

/// The tally after a number of chunks.
pub open spec fn all_tallied(t: PrefillTally, outcomes: Seq<PrefillOutcome>) -> PrefillTally
    decreases outcomes.len(),
{
    if outcomes.len() == 0 {
        t
    } else {
        tallied(all_tallied(t, outcomes.drop_last()), outcomes.last())
    }
}

impl PrefillTally {
    /// How many chunks came.
    pub open spec fn chunks(self) -> int {
        self.accepted + self.wrong_size + self.stale
    }

    pub fn new() -> (r: Self)
        ensures
            r == no_chunks(),
    {
        PrefillTally { accepted: 0, bytes: 0, wrong_size: 0, stale: 0 }
    }

    /// Count a chunk. Gives whether the tally is told now.
    pub fn count(&mut self, o: PrefillOutcome) -> (report: bool)
        ensures
            *final(self) == tallied(*old(self), o),
            report == (final(self).chunks() % (REPORT_INTERVAL as int) == 0),
    {
        match o {
            PrefillOutcome::Accepted(len) => {
                self.accepted = self.accepted.saturating_add(1);
                self.bytes = self.bytes.saturating_add(len);
            },
            PrefillOutcome::WrongSize => {
                self.wrong_size = self.wrong_size.saturating_add(1);
            },
            PrefillOutcome::Stale => {
                self.stale = self.stale.saturating_add(1);
            },
        }
        let chunks: u128 = self.accepted as u128 + self.wrong_size as u128 + self.stale as u128;
        chunks % (REPORT_INTERVAL as u128) == 0
    }

    /// Whether any chunk came, so that there is something to tell at the end.
    pub fn any(&self) -> (r: bool)
        ensures
            r == (self.chunks() > 0),
    {
        self.accepted > 0 || self.wrong_size > 0 || self.stale > 0
    }
}

/// Every chunk is counted once: after a number of chunks the tally holds as
/// many, as long as that many can be counted. So it is told after every
/// 64 chunks, and at no other time.
pub proof fn law_every_chunk_counted(outcomes: Seq<PrefillOutcome>)
    requires
        outcomes.len() <= u64::MAX,
    ensures
        all_tallied(no_chunks(), outcomes).chunks() == outcomes.len(),
    decreases outcomes.len(),
{
    if outcomes.len() > 0 {
        law_every_chunk_counted(outcomes.drop_last());
    }
}

/// What becomes of a chunk that is sent ahead: one of another size than those
/// that are kept is refused, then one older than what was seen of its inode;
/// any other is taken, with all its bytes. Other messages are no chunks.
pub proof fn law_chunk_outcomes(v: CacheView, content: ContentCacheConfig, p: PushView)
    ensures
        p matches PushView::Prefill { ino, chunk_size, data, generation: g, .. } ==> {
            let seen = if v.gens.dom().contains(ino) {
                v.gens[ino]
            } else {
                0
            };
            &&& chunk_size != content.chunk_size ==> outcome_of(v, content, p) == Some(
                PrefillOutcome::WrongSize,
            )
            &&& chunk_size == content.chunk_size && g < seen ==> outcome_of(v, content, p) == Some(
                PrefillOutcome::Stale,
            )
            &&& chunk_size == content.chunk_size && g >= seen ==> outcome_of(v, content, p) == Some(
                PrefillOutcome::Accepted(data.len() as u64),
            )
        },
        !(p is Prefill) ==> outcome_of(v, content, p) is None,
{
}

/// Each chunk is counted under what became of it, and the bytes of those that
/// were taken. The tally is told after every 64 chunks.
pub proof fn law_chunk_tally(t: PrefillTally, len: u64)
    requires
        t.accepted < u64::MAX,
        t.wrong_size < u64::MAX,
        t.stale < u64::MAX,
        t.bytes + len <= u64::MAX,
    ensures
        ({
            let a = tallied(t, PrefillOutcome::Accepted(len));
            &&& a.accepted == t.accepted + 1
            &&& a.bytes == t.bytes + len
            &&& a.wrong_size == t.wrong_size
            &&& a.stale == t.stale
        }),
        ({
            let a = tallied(t, PrefillOutcome::WrongSize);
            &&& a.wrong_size == t.wrong_size + 1
            &&& a.accepted == t.accepted
            &&& a.bytes == t.bytes
            &&& a.stale == t.stale
        }),
        ({
            let a = tallied(t, PrefillOutcome::Stale);
            &&& a.stale == t.stale + 1
            &&& a.accepted == t.accepted
            &&& a.bytes == t.bytes
            &&& a.wrong_size == t.wrong_size
        }),
        REPORT_INTERVAL == 64,
{
}

} // verus!
