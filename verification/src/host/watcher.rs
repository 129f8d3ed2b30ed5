//! Translation of filesystem events into cache invalidations.
//!
//! The rules are conservative: invalidating too much is fine, too little
//! breaks coherence.
//!
//! - creation, removal and renames drop the entry in the parent directory;
//! - a change of content, of metadata or of another kind drops the attributes
//!   and the content, and counts a generation;
//! - anything that is not recognized drops the whole cache.
//!
//! A path without a number yet is skipped: the sprite has not asked for it.

use vstd::prelude::*;

use crate::host::dispatch::{bumped, generation, Generations};
use crate::host::inode_table::{ino_of, one_to_one, InodeTable};
use crate::path::{final_name, parent_path, under, Comp, HostPath};
use crate::protocol::{push_views, Ino, Push, PushView, ROOT_INO};

verus! {

/// How the watcher is set up.
#[derive(Debug, Clone, Copy)]
pub struct WatcherConfig {
    /// How long raw events are gathered before they are applied.
    pub debounce_ms: u64,
    /// How many pushes are buffered.
    pub channel_capacity: usize,
}

impl Default for WatcherConfig {
    fn default() -> (r: Self)
        ensures
            r.debounce_ms == 100,
            r.channel_capacity == 1024,
    {
        WatcherConfig { debounce_ms: 100, channel_capacity: 1024 }
    }
}

/// Why a watcher could not be set up.
#[derive(Debug, PartialEq, Eq)]
pub enum WatcherError {
    Notify(String),
}

impl WatcherError {
    /// The failure in words.
    pub fn message(&self) -> (r: String)
        ensures
            r@ == "notify error: "@ + self->0@,
    {
        match self {
            WatcherError::Notify(s) => crate::text::concat("notify error: ", s),
        }
    }
}

#[derive(Debug, Clone, Copy, PartialEq, Eq, Structural)]
pub enum CreateKind {
    Any,
    File,
    Folder,
    Other,
}

#[derive(Debug, Clone, Copy, PartialEq, Eq, Structural)]
pub enum ModifyKind {
    Any,
    Data,
    Metadata,
    Name,
    Other,
}

#[derive(Debug, Clone, Copy, PartialEq, Eq, Structural)]
pub enum RemoveKind {
    Any,
    File,
    Folder,
    Other,
}

/// What happened to the paths of an event.
#[derive(Debug, Clone, Copy, PartialEq, Eq, Structural)]
pub enum EventKind {
    Any,
    Access,
    Create(CreateKind),
    Modify(ModifyKind),
    Remove(RemoveKind),
    Other,
}

/// What an event asks to be dropped.
pub enum Rule {
    Entry,
    AttrAndData,
    Everything,
}

/// The rule for a kind of event.
pub open spec fn rule(kind: EventKind) -> Rule {
    match kind {
        EventKind::Create(k) => if k == CreateKind::Any {
            Rule::Everything
        } else {
            Rule::Entry
        },
        EventKind::Remove(k) => if k == RemoveKind::Any {
            Rule::Everything
        } else {
            Rule::Entry
        },
        EventKind::Modify(ModifyKind::Data)
        | EventKind::Modify(ModifyKind::Metadata)
        | EventKind::Modify(ModifyKind::Other) => Rule::AttrAndData,
        EventKind::Modify(ModifyKind::Name) => Rule::Entry,
        _ => Rule::Everything,
    }
}

/// The path below `root`, where it lies there.
pub open spec fn below(root: Seq<Comp>, abs: Seq<Comp>) -> Option<Seq<Comp>> {
    if under(abs, root) {
        Some(abs.skip(root.len() as int))
    } else {
        None
    }
}

/// The number of the directory that holds a path, and the name in it.
pub open spec fn parent_entry(
    table: Map<Ino, Seq<Comp>>,
    root: Seq<Comp>,
    abs: Seq<Comp>,
) -> Option<(Ino, Seq<char>)> {
    match below(root, abs) {
        None => None,
        Some(rel) => match (parent_path(rel), final_name(rel)) {
            (Some(dir), Some(name)) => if dir.len() == 0 {
                Some((ROOT_INO, name))
            } else {
                match ino_of(table, dir) {
                    Some(k) => Some((k, name)),
                    None => None,
                }
            },
            _ => None,
        },
    }
}

/// The number of a path below `root`, if it has one.
pub open spec fn known_ino(table: Map<Ino, Seq<Comp>>, root: Seq<Comp>, abs: Seq<Comp>) -> Option<
    Ino,
> {
    match below(root, abs) {
        None => None,
        Some(rel) => ino_of(table, rel),
    }
}

/// The pushes for one path under a rule, and the generations after them.
pub open spec fn path_pushes(
    table: Map<Ino, Seq<Comp>>,
    gens: Map<Ino, u64>,
    root: Seq<Comp>,
    r: Rule,
    abs: Seq<Comp>,
) -> (Map<Ino, u64>, Seq<PushView>) {
    match r {
        Rule::Entry => match parent_entry(table, root, abs) {
            None => (gens, Seq::empty()),
            Some((parent, name)) => {
                let rel = match below(root, abs) {
                    Some(rel) => rel,
                    None => abs,
                };
                let known = ino_of(table, rel);
                let ino = if known == Some(ROOT_INO) {
                    None
                } else {
                    known
                };
                (gens, seq![PushView::InvalidateEntry { parent, name, ino }])
            },
        },
        Rule::Everything => (gens, Seq::empty()),
        Rule::AttrAndData => match known_ino(table, root, abs) {
            None => (gens, Seq::empty()),
            Some(ino) => {
                let after = bumped(gens, ino);
                let data = PushView::InvalidateData {
                    ino,
                    offset: 0,
                    len: 0,
                    generation: generation(after, ino),
                };
                (after, seq![PushView::InvalidateAttr { ino }, data])
            },
        },
    }
}

/// The pushes for the paths of an event, in order.
pub open spec fn paths_pushes(
    table: Map<Ino, Seq<Comp>>,
    gens: Map<Ino, u64>,
    root: Seq<Comp>,
    r: Rule,
    paths: Seq<Seq<Comp>>,
) -> (Map<Ino, u64>, Seq<PushView>)
    decreases paths.len(),
{
    if paths.len() == 0 {
        (gens, Seq::empty())
    } else {
        let (g, before) = paths_pushes(table, gens, root, r, paths.drop_last());
        let (h, more) = path_pushes(table, g, root, r, paths.last());
        (h, before + more)
    }
}

/// The pushes for an event.
pub open spec fn event_pushes(
    table: Map<Ino, Seq<Comp>>,
    gens: Map<Ino, u64>,
    root: Seq<Comp>,
    kind: EventKind,
    paths: Seq<Seq<Comp>>,
) -> (Map<Ino, u64>, Seq<PushView>) {
    if rule(kind) is Everything {
        (gens, seq![PushView::Resync { epoch: 0 }])
    } else {
        paths_pushes(table, gens, root, rule(kind), paths)
    }
}

/// The views of a sequence of paths.
pub open spec fn path_views(v: Seq<HostPath>) -> Seq<Seq<Comp>> {
    Seq::new(v.len(), |i: int| v[i]@)
}

fn rule_for(kind: EventKind) -> (r: Rule)
    ensures
        r == rule(kind),
{
    match kind {
        EventKind::Create(CreateKind::File)
        | EventKind::Create(CreateKind::Folder)
        | EventKind::Create(CreateKind::Other) => Rule::Entry,
        EventKind::Remove(RemoveKind::File)
        | EventKind::Remove(RemoveKind::Folder)
        | EventKind::Remove(RemoveKind::Other) => Rule::Entry,
        EventKind::Modify(ModifyKind::Data)
        | EventKind::Modify(ModifyKind::Metadata)
        | EventKind::Modify(ModifyKind::Other) => Rule::AttrAndData,
        EventKind::Modify(ModifyKind::Name) => Rule::Entry,
        _ => Rule::Everything,
    }
}

fn ino_for_path(root: &HostPath, inodes: &InodeTable, abs: &HostPath) -> (r: Option<Ino>)
    requires
        inodes.wf(),
    ensures
        r == known_ino(inodes@, root@, abs@),
{
    match abs.strip_prefix(root) {
        None => None,
        Some(rel) => {
            assert(rel@ =~= abs@.skip(root@.len() as int));
            inodes.ino(&rel)
        },
    }
}

fn parent_and_name(root: &HostPath, inodes: &InodeTable, abs: &HostPath) -> (r: Option<
    (Ino, String),
>)
    requires
        inodes.wf(),
    ensures
        r is Some <==> parent_entry(inodes@, root@, abs@) is Some,
        r matches Some((ino, name)) ==> parent_entry(inodes@, root@, abs@) == Some((ino, name@)),
{
    let rel: HostPath = match abs.strip_prefix(root) {
        None => {
            return None;
        },
        Some(rel) => rel,
    };
    assert(rel@ =~= abs@.skip(root@.len() as int));
    let dir: HostPath = match rel.parent() {
        None => {
            return None;
        },
        Some(dir) => dir,
    };
    let name: String = match rel.file_name() {
        None => {
            return None;
        },
        Some(name) => name,
    };
    if dir.is_empty() {
        return Some((ROOT_INO, name));
    }
    match inodes.ino(&dir) {
        Some(k) => Some((k, name)),
        None => None,
    }
}

/// The pushes for an event under `root`. The inode table maps paths to known
/// numbers; a change of content counts a generation.
pub fn translate(
    root: &HostPath,
    inodes: &InodeTable,
    generations: &mut Generations,
    kind: EventKind,
    paths: &Vec<HostPath>,
) -> (out: Vec<Push>)
    requires
        inodes.wf(),
    ensures
        (final(generations)@, push_views(out@)) == event_pushes(
            inodes@,
            old(generations)@,
            root@,
            kind,
            path_views(paths@),
        ),
{
    let r: Rule = rule_for(kind);
    let mut out: Vec<Push> = Vec::new();
    if let Rule::Everything = r {
        // The epoch of an unrecognized event does not matter.
        out.push(Push::Resync { epoch: 0 });
        assert(push_views(out@) =~= seq![PushView::Resync { epoch: 0 }]);
        return out;
    }
    let ghost all = path_views(paths@);
    let mut i: usize = 0;
    proof {
        assert(all.take(0) =~= Seq::empty());
        assert(push_views(out@) =~= Seq::<PushView>::empty());
    }
    while i < paths.len()
        invariant
            i <= paths@.len(),
            all == path_views(paths@),
            inodes.wf(),
            !(r is Everything),
            (generations@, push_views(out@)) == paths_pushes(
                inodes@,
                old(generations)@,
                root@,
                r,
                all.take(i as int),
            ),
        decreases paths@.len() - i,
    {
        let path: &HostPath = &paths[i];
        let ghost before = push_views(out@);
        let ghost gens = generations@;
        proof {
            assert(all.take(i + 1).drop_last() =~= all.take(i as int));
            assert(all.take(i + 1).last() == path@);
        }
        if let Rule::Entry = r {
            if let Some((parent, name)) = parent_and_name(root, inodes, path) {
                let known: Option<Ino> = ino_for_path(root, inodes, path);
                let ino: Option<Ino> = match known {
                    Some(k) => if k == ROOT_INO {
                        None
                    } else {
                        Some(k)
                    },
                    None => None,
                };
                out.push(Push::InvalidateEntry { parent, name, ino });
                assert(push_views(out@) =~= before + seq![out@.last()@]);
            }
        } else if let Some(ino) = ino_for_path(root, inodes, path) {
            let new_gen: u64 = generations.bump(ino);
            out.push(Push::InvalidateAttr { ino });
            out.push(Push::InvalidateData { ino, offset: 0, len: 0, generation: new_gen });
            assert(push_views(out@) =~= before + seq![
                PushView::InvalidateAttr { ino },
                out@.last()@,
            ]);
        }
        proof {
            let more = path_pushes(inodes@, gens, root@, r, path@).1;
            assert(push_views(out@) =~= before + more);
        }
        i += 1;
    }
    assert(all.take(all.len() as int) =~= all);
    out
}

/// Counts the times that the whole cache was dropped after an error, so that
/// the sprite can tell repeated drops apart.
#[derive(Debug)]
pub struct ResyncEpoch {
    epoch: u64,
}

impl ResyncEpoch {
    /// The epoch of the last drop.
    pub closed spec fn value(&self) -> u64 {
        self.epoch
    }

    pub fn new() -> (r: Self)
        ensures
            r.value() == 1,
    {
        ResyncEpoch { epoch: 1 }
    }

    /// The push that drops the whole cache, under a new epoch.
    pub fn resync(&mut self) -> (p: Push)
        ensures
            final(self).value() == old(self).value().wrapping_add(1),
            p@ == (PushView::Resync { epoch: final(self).value() }),
    {
        self.epoch = self.epoch.wrapping_add(1);
        Push::Resync { epoch: self.epoch }
    }
}

/// A modification of a known path, whatever is modified but its name, drops
/// its attributes and its content, under a generation that no earlier read
/// carried; one of an unknown path sends nothing.
pub proof fn law_modification_invalidates(
    table: Map<Ino, Seq<Comp>>,
    gens: Map<Ino, u64>,
    root: Seq<Comp>,
    what: ModifyKind,
    abs: Seq<Comp>,
)
    requires
        what is Data || what is Metadata || what is Other,
    ensures
        known_ino(table, root, abs) is None ==> event_pushes(
            table,
            gens,
            root,
            EventKind::Modify(what),
            seq![abs],
        ) == (gens, Seq::<PushView>::empty()),
        known_ino(table, root, abs) matches Some(ino) ==> {
            let (after, out) = event_pushes(
                table,
                gens,
                root,
                EventKind::Modify(what),
                seq![abs],
            );
            &&& out == seq![
                PushView::InvalidateAttr { ino },
                PushView::InvalidateData { ino, offset: 0, len: 0, generation: generation(after, ino) },
            ]
            &&& generation(gens, ino) < u64::MAX ==> generation(after, ino) > generation(gens, ino)
        },
{
    let paths = seq![abs];
    let r = Rule::AttrAndData;
    assert(paths.drop_last() =~= Seq::empty());
    assert(paths_pushes(table, gens, root, r, paths.drop_last()).1 =~= Seq::empty());
    let (after, out) = event_pushes(table, gens, root, EventKind::Modify(what), paths);
    assert(out =~= path_pushes(table, gens, root, r, abs).1);
}

/// Whether a number stands for a path.
pub open spec fn stands_for(table: Map<Ino, Seq<Comp>>, ino: Ino, path: Seq<Comp>) -> bool {
    table.dom().contains(ino) && table[ino] == path
}

proof fn lemma_ino_of(table: Map<Ino, Seq<Comp>>, ino: Ino, path: Seq<Comp>)
    requires
        one_to_one(table),
        stands_for(table, ino, path),
    ensures
        ino_of(table, path) == Some(ino),
{
    assert(table[ino] == path);
    let k = choose|k: Ino| table.dom().contains(k) && #[trigger] table[k] == path;
    assert(table[k] == table[ino]);
}

/// The pushes for one path stand together among those for all of them, and are
/// made with counters that none of the earlier paths has lowered.
proof fn lemma_pushes_of_path(
    table: Map<Ino, Seq<Comp>>,
    gens: Map<Ino, u64>,
    root: Seq<Comp>,
    r: Rule,
    paths: Seq<Seq<Comp>>,
    i: int,
) -> (w: (int, Map<Ino, u64>))
    requires
        0 <= i < paths.len(),
    ensures
        ({
            let (after, out) = paths_pushes(table, gens, root, r, paths);
            let (then, more) = path_pushes(table, w.1, root, r, paths[i]);
            &&& 0 <= w.0 <= w.0 + more.len() <= out.len()
            &&& forall|j: int| 0 <= j < more.len() ==> #[trigger] out[w.0 + j] == more[j]
            &&& forall|n: Ino| #[trigger] generation(gens, n) <= generation(w.1, n)
            &&& forall|n: Ino| #[trigger] generation(then, n) <= generation(after, n)
            &&& !(r is AttrAndData) ==> after == gens
        }),
    decreases paths.len(),
{
    let (g, before) = paths_pushes(table, gens, root, r, paths.drop_last());
    let (h, more) = path_pushes(table, g, root, r, paths.last());
    lemma_pushes_count(table, gens, root, r, paths.drop_last());
    assert(forall|n: Ino| #[trigger] generation(g, n) <= generation(h, n));
    if i == paths.len() - 1 {
        (before.len() as int, g)
    } else {
        let w = lemma_pushes_of_path(table, gens, root, r, paths.drop_last(), i);
        assert(paths.drop_last()[i] == paths[i]);
        assert forall|j: int|
            0 <= j < path_pushes(table, w.1, root, r, paths[i]).1.len() implies #[trigger] (before
            + more)[w.0 + j] == path_pushes(table, w.1, root, r, paths[i]).1[j] by {
            assert(before[w.0 + j] == path_pushes(table, w.1, root, r, paths[i]).1[j]);
        }
        w
    }
}

proof fn lemma_pushes_count(
    table: Map<Ino, Seq<Comp>>,
    gens: Map<Ino, u64>,
    root: Seq<Comp>,
    r: Rule,
    paths: Seq<Seq<Comp>>,
)
    ensures
        ({
            let (after, out) = paths_pushes(table, gens, root, r, paths);
            &&& forall|n: Ino| #[trigger] generation(gens, n) <= generation(after, n)
            &&& !(r is AttrAndData) ==> after == gens
        }),
    decreases paths.len(),
{
    if paths.len() > 0 {
        lemma_pushes_count(table, gens, root, r, paths.drop_last());
        let (g, before) = paths_pushes(table, gens, root, r, paths.drop_last());
        let (h, more) = path_pushes(table, g, root, r, paths.last());
        assert(forall|n: Ino| #[trigger] generation(g, n) <= generation(h, n));
    }
}

/// Whatever is renamed, created or removed is dropped from its directory: for
/// each path of the event below the root whose directory has a number, a push
/// invalidates its name there, and gives the number of the path where it has
/// one. No counter changes.
pub proof fn law_entries_invalidated(
    table: Map<Ino, Seq<Comp>>,
    gens: Map<Ino, u64>,
    root: Seq<Comp>,
    kind: EventKind,
    paths: Seq<Seq<Comp>>,
    i: int,
    dir: Seq<Comp>,
    name: Seq<char>,
    parent: Ino,
) -> (j: int)
    requires
        one_to_one(table),
        kind == EventKind::Modify(ModifyKind::Name) || kind == EventKind::Create(CreateKind::File)
            || kind == EventKind::Create(CreateKind::Folder) || kind == EventKind::Create(
            CreateKind::Other,
        ) || kind == EventKind::Remove(RemoveKind::File) || kind == EventKind::Remove(
            RemoveKind::Folder,
        ) || kind == EventKind::Remove(RemoveKind::Other),
        0 <= i < paths.len(),
        paths[i] == root + dir.push(Comp::Normal(name)),
        dir.len() == 0 ==> parent == 1,
        dir.len() > 0 ==> stands_for(table, parent, dir),
    ensures
        ({
            let (after, out) = event_pushes(table, gens, root, kind, paths);
            let path = dir.push(Comp::Normal(name));
            &&& after == gens
            &&& 0 <= j < out.len()
            &&& out[j] matches PushView::InvalidateEntry { parent: p, name: s, ino } && p == parent
                && s == name && (forall|n: Ino|
                n != 1 && #[trigger] stands_for(table, n, path) ==> ino == Some(n)) && (ino matches Some(
                n,
            ) ==> stands_for(table, n, path))
        }),
{
    let path = dir.push(Comp::Normal(name));
    let abs = root + path;
    assert(abs.subrange(0, root.len() as int) =~= root);
    assert(abs.skip(root.len() as int) =~= path);
    assert(path.drop_last() =~= dir);
    if dir.len() > 0 {
        lemma_ino_of(table, parent, dir);
    }
    assert forall|n: Ino| #[trigger] stands_for(table, n, path) implies ino_of(table, path) == Some(
        n,
    ) by {
        lemma_ino_of(table, n, path);
    }
    let w = lemma_pushes_of_path(table, gens, root, Rule::Entry, paths, i);
    let more = path_pushes(table, w.1, root, Rule::Entry, paths[i]).1;
    assert(more.len() == 1);
    let out = event_pushes(table, gens, root, kind, paths).1;
    assert(out[w.0 + 0] == more[0]);
    w.0
}

/// Whatever changes in content or metadata, or in another way but its name, is
/// dropped: for each path of the event below the root that has a number, two
/// pushes invalidate its attributes and all of its content, under a generation
/// above the one that it had, which is also the one that its counter holds or
/// has passed afterwards.
pub proof fn law_contents_invalidated(
    table: Map<Ino, Seq<Comp>>,
    gens: Map<Ino, u64>,
    root: Seq<Comp>,
    what: ModifyKind,
    paths: Seq<Seq<Comp>>,
    i: int,
    path: Seq<Comp>,
    ino: Ino,
) -> (j: int)
    requires
        one_to_one(table),
        what == ModifyKind::Data || what == ModifyKind::Metadata || what == ModifyKind::Other,
        0 <= i < paths.len(),
        paths[i] == root + path,
        stands_for(table, ino, path),
    ensures
        ({
            let (after, out) = event_pushes(table, gens, root, EventKind::Modify(what), paths);
            &&& 0 <= j < out.len() - 1
            &&& out[j] == PushView::InvalidateAttr { ino }
            &&& out[j + 1] matches PushView::InvalidateData {
                ino: n,
                offset,
                len,
                generation: g,
            } && n == ino && offset == 0 && len == 0 && (g == u64::MAX || (if gens.dom().contains(
                ino,
            ) {
                gens[ino] < g
            } else {
                0 < g
            })) && after.dom().contains(ino) && g <= after[ino]
        }),
{
    assert((root + path).subrange(0, root.len() as int) =~= root);
    assert((root + path).skip(root.len() as int) =~= path);
    lemma_ino_of(table, ino, path);
    let r = Rule::AttrAndData;
    let w = lemma_pushes_of_path(table, gens, root, r, paths, i);
    let (then, more) = path_pushes(table, w.1, root, r, paths[i]);
    assert(more.len() == 2);
    let (after, out) = event_pushes(table, gens, root, EventKind::Modify(what), paths);
    assert(out[w.0 + 0] == more[0]);
    assert(out[w.0 + 1] == more[1]);
    assert(generation(gens, ino) <= generation(w.1, ino));
    assert(generation(then, ino) <= generation(after, ino));
    w.0
}

/// An event of a kind that is not known drops the whole cache, whatever its
/// paths, and paths outside of the root drop nothing.
pub proof fn law_other_events(
    table: Map<Ino, Seq<Comp>>,
    gens: Map<Ino, u64>,
    root: Seq<Comp>,
    kind: EventKind,
    paths: Seq<Seq<Comp>>,
)
    ensures
        kind == EventKind::Any || kind == EventKind::Access || kind == EventKind::Other || kind
            == EventKind::Create(CreateKind::Any) || kind == EventKind::Remove(RemoveKind::Any)
            || kind == EventKind::Modify(ModifyKind::Any) ==> event_pushes(
            table,
            gens,
            root,
            kind,
            paths,
        ) == (gens, seq![PushView::Resync { epoch: 0 }]),
        event_pushes(table, gens, root, kind, paths).1 != seq![PushView::Resync { epoch: 0 }] && (
        forall|i: int, rest: Seq<Comp>|
            0 <= i < paths.len() ==> #[trigger] paths[i] != #[trigger] (root + rest))
            ==> event_pushes(table, gens, root, kind, paths) == (gens, Seq::<PushView>::empty()),
{
    if !(rule(kind) is Everything) && (forall|i: int, rest: Seq<Comp>|
        0 <= i < paths.len() ==> #[trigger] paths[i] != #[trigger] (root + rest)) {
        lemma_outside(table, gens, root, rule(kind), paths);
    }
}

proof fn lemma_outside(
    table: Map<Ino, Seq<Comp>>,
    gens: Map<Ino, u64>,
    root: Seq<Comp>,
    r: Rule,
    paths: Seq<Seq<Comp>>,
)
    requires
        forall|i: int, rest: Seq<Comp>|
            0 <= i < paths.len() ==> #[trigger] paths[i] != #[trigger] (root + rest),
    ensures
        paths_pushes(table, gens, root, r, paths) == (gens, Seq::<PushView>::empty()),
    decreases paths.len(),
{
    if paths.len() > 0 {
        let before = paths.drop_last();
        assert forall|i: int, rest: Seq<Comp>| 0 <= i < before.len() implies #[trigger] before[i]
            != #[trigger] (root + rest) by {
            assert(before[i] == paths[i]);
        }
        lemma_outside(table, gens, root, r, before);
        let abs = paths[paths.len() - 1];
        if under(abs, root) {
            let rest = abs.skip(root.len() as int);
            assert(abs =~= root + rest);
        }
        assert(Seq::<PushView>::empty() + Seq::<PushView>::empty() =~= Seq::<PushView>::empty());
    }
}

} // verus!
