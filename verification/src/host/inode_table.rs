//! Bidirectional mapping between inode numbers and paths.
//!
//! The protocol names files by inode number, the host filesystem by path. The
//! table allocates a number when a path is first seen, keeps it stable across
//! renames and retires it when the file goes. The root is always `ROOT_INO`,
//! mapped to the empty path: it is never retired and never moves.

use vstd::prelude::*;

use crate::path::{join_path, parsed, under, Comp, HostPath};
use crate::protocol::{Ino, ROOT_INO};

verus! {

#[derive(Debug)]
struct Row {
    ino: Ino,
    path: HostPath,
}

#[derive(Debug)]
pub struct InodeTable {
    rows: Vec<Row>,
    next_ino: Ino,
}

/// Whether no two inode numbers share a path.
pub open spec fn one_to_one(m: Map<Ino, Seq<Comp>>) -> bool {
    forall|a: Ino, b: Ino|
        #![trigger m[a], m[b]]
        m.dom().contains(a) && m.dom().contains(b) && m[a] == m[b] ==> a == b
}

/// The inode number of a path, if the path is known.
pub open spec fn ino_of(m: Map<Ino, Seq<Comp>>, p: Seq<Comp>) -> Option<Ino> {
    if exists|k: Ino| m.dom().contains(k) && #[trigger] m[k] == p {
        Some(choose|k: Ino| m.dom().contains(k) && #[trigger] m[k] == p)
    } else {
        None
    }
}

/// Whether the root has its number.
pub open spec fn has_root(m: Map<Ino, Seq<Comp>>) -> bool {
    m.dom().contains(ROOT_INO) && m[ROOT_INO] == Seq::<Comp>::empty()
}

/// The table without an inode number; that of the root stays.
pub open spec fn retired(m: Map<Ino, Seq<Comp>>, ino: Ino) -> Map<Ino, Seq<Comp>> {
    if ino == ROOT_INO {
        m
    } else {
        m.remove(ino)
    }
}

/// The table without a path; that of the root stays.
pub open spec fn forgotten(m: Map<Ino, Seq<Comp>>, p: Seq<Comp>) -> Map<Ino, Seq<Comp>> {
    match ino_of(m, p) {
        Some(k) => retired(m, k),
        None => m,
    }
}

/// Where a path below `from` goes when `from` becomes `to`.
pub open spec fn rebased(p: Seq<Comp>, from: Seq<Comp>, to: Seq<Comp>) -> Seq<Comp> {
    if p == from {
        to
    } else if under(p, from) {
        join_path(to, p.skip(from.len() as int))
    } else {
        p
    }
}

/// Whether the path `p` gives way when `from` becomes `to`: it lies at or
/// below `to`, and does not itself move there from below `to`.
pub open spec fn displaced(p: Seq<Comp>, from: Seq<Comp>, to: Seq<Comp>) -> bool {
    under(p, to) && !(under(from, to) && under(p, from))
}

/// The table after `from` becomes `to`: what stood at or below `to` is
/// forgotten, what stands at or below `from` moves and keeps its number. A path
/// that becomes itself changes nothing. The root itself neither moves nor gives
/// way: where it is replaced, all else is forgotten, and where it moves, all
/// else moves.
pub open spec fn renamed(m: Map<Ino, Seq<Comp>>, from: Seq<Comp>, to: Seq<Comp>) -> Map<
    Ino,
    Seq<Comp>,
> {
    if from == to {
        m
    } else if to.len() == 0 {
        map![ROOT_INO => Seq::<Comp>::empty()]
    } else if from.len() == 0 {
        sunk(m, to)
    } else {
        moved(m, from, to)
    }
}

/// Whether the path `p`, which begins with a dot, gives way to the same path
/// without it when all paths move below `to`: both come to stand at one place.
pub open spec fn overtaken(m: Map<Ino, Seq<Comp>>, p: Seq<Comp>, to: Seq<Comp>) -> bool {
    &&& under(p, seq![Comp::CurDir])
    &&& p.len() > 1
    &&& !under(p.skip(1), to)
    &&& ino_of(m, p.skip(1)) is Some
}

/// The table after everything but the root itself moves below `to`. What stood
/// at or below `to` is forgotten.
pub open spec fn sunk(m: Map<Ino, Seq<Comp>>, to: Seq<Comp>) -> Map<Ino, Seq<Comp>> {
    Map::new(
        |k: Ino|
            m.dom().contains(k) && (k == ROOT_INO || !under(m[k], to) && !overtaken(m, m[k], to)),
        |k: Ino|
            if k == ROOT_INO {
                m[k]
            } else {
                join_path(to, m[k])
            },
    )
}

/// The table after a path other than the root becomes another one.
pub open spec fn moved(m: Map<Ino, Seq<Comp>>, from: Seq<Comp>, to: Seq<Comp>) -> Map<
    Ino,
    Seq<Comp>,
> {
    Map::new(
        |k: Ino| m.dom().contains(k) && !displaced(m[k], from, to),
        |k: Ino| rebased(m[k], from, to),
    )
}

spec fn row_map(rows: Seq<Row>) -> Map<Ino, Seq<Comp>>
    decreases rows.len(),
{
    if rows.len() == 0 {
        Map::empty()
    } else {
        row_map(rows.drop_last()).insert(rows.last().ino, rows.last().path@)
    }
}

spec fn distinct(rows: Seq<Row>) -> bool {
    forall|i: int, j: int|
        #![trigger rows[i], rows[j]]
        0 <= i < j < rows.len() ==> rows[i].ino != rows[j].ino
}

proof fn lemma_row_map(rows: Seq<Row>)
    requires
        distinct(rows),
    ensures
        forall|i: int|
            #![trigger rows[i]]
            0 <= i < rows.len() ==> row_map(rows).dom().contains(rows[i].ino) && row_map(
                rows,
            )[rows[i].ino] == rows[i].path@,
        forall|k: Ino|
            row_map(rows).dom().contains(k) ==> exists|i: int|
                0 <= i < rows.len() && #[trigger] rows[i].ino == k,
        row_map(rows).dom().finite(),
        row_map(rows).len() == rows.len(),
    decreases rows.len(),
{
    if rows.len() > 0 {
        let before = rows.drop_last();
        assert forall|i: int, j: int|
            #![trigger before[i], before[j]]
            0 <= i < j < before.len() implies before[i].ino != before[j].ino by {
            assert(rows[i] == before[i] && rows[j] == before[j]);
        }
        lemma_row_map(before);
        let last = rows.last();
        assert(!row_map(before).dom().contains(last.ino)) by {
            if row_map(before).dom().contains(last.ino) {
                let i = choose|i: int| 0 <= i < before.len() && #[trigger] before[i].ino == last.ino;
                assert(rows[i] == before[i]);
                assert(rows[rows.len() - 1] == last);
            }
        }
        assert forall|i: int|
            #![trigger rows[i]]
            0 <= i < rows.len() implies row_map(rows).dom().contains(rows[i].ino) && row_map(
            rows,
        )[rows[i].ino] == rows[i].path@ by {
            if i < before.len() {
                assert(before[i] == rows[i]);
            }
        }
        assert forall|k: Ino| row_map(rows).dom().contains(k) implies exists|i: int|
            0 <= i < rows.len() && #[trigger] rows[i].ino == k by {
            if k == last.ino {
                assert(rows[rows.len() - 1].ino == k);
            } else {
                let i = choose|i: int| 0 <= i < before.len() && #[trigger] before[i].ino == k;
                assert(rows[i].ino == k);
            }
        }
    }
}

impl View for InodeTable {
    type V = Map<Ino, Seq<Comp>>;

    closed spec fn view(&self) -> Map<Ino, Seq<Comp>> {
        row_map(self.rows@)
    }
}

impl InodeTable {
    /// The number that the next unknown path gets.
    pub closed spec fn next(&self) -> Ino {
        self.next_ino
    }

    /// No number and no path occurs twice, every number was handed out, every
    /// path is a parsed one, and the root has its number.
    pub closed spec fn wf(&self) -> bool {
        &&& distinct(self.rows@)
        &&& one_to_one(self@)
        &&& has_root(self@)
        &&& forall|i: int| 0 <= i < self.rows@.len() ==> (#[trigger] self.rows@[i]).ino < self.next_ino
        &&& forall|i: int| 0 <= i < self.rows@.len() ==> parsed((#[trigger] self.rows@[i]).path@)
    }

    /// A table that knows the root alone.
    pub fn new() -> (r: Self)
        ensures
            r.wf(),
            r@ == map![ROOT_INO => Seq::<Comp>::empty()],
            r.next() == ROOT_INO + 1,
    {
        let mut rows: Vec<Row> = Vec::new();
        rows.push(Row { ino: ROOT_INO, path: HostPath::empty() });
        let r = InodeTable { rows, next_ino: ROOT_INO + 1 };
        proof {
            lemma_row_map(r.rows@);
            assert(r.rows@.drop_last() =~= Seq::empty());
            assert(r@ =~= map![ROOT_INO => Seq::<Comp>::empty()]);
        }
        r
    }

    fn row_of_ino(&self, ino: Ino) -> (r: Option<usize>)
        ensures
            r matches Some(i) ==> i < self.rows@.len() && self.rows@[i as int].ino == ino,
            r is None ==> forall|i: int| 0 <= i < self.rows@.len() ==> (#[trigger] self.rows@[i]).ino
                != ino,
    {
        let mut i: usize = 0;
        while i < self.rows.len()
            invariant
                i <= self.rows@.len(),
                forall|j: int| 0 <= j < i ==> (#[trigger] self.rows@[j]).ino != ino,
            decreases self.rows@.len() - i,
        {
            if self.rows[i].ino == ino {
                return Some(i);
            }
            i += 1;
        }
        None
    }

    fn row_of_path(&self, path: &HostPath) -> (r: Option<usize>)
        ensures
            r matches Some(i) ==> i < self.rows@.len() && self.rows@[i as int].path@ == path@,
            r is None ==> forall|i: int|
                0 <= i < self.rows@.len() ==> (#[trigger] self.rows@[i]).path@ != path@,
    {
        let mut i: usize = 0;
        while i < self.rows.len()
            invariant
                i <= self.rows@.len(),
                forall|j: int| 0 <= j < i ==> (#[trigger] self.rows@[j]).path@ != path@,
            decreases self.rows@.len() - i,
        {
            if self.rows[i].path.same(path) {
                return Some(i);
            }
            i += 1;
        }
        None
    }

    /// The path of an inode number, if known.
    pub fn path(&self, ino: Ino) -> (r: Option<&HostPath>)
        requires
            self.wf(),
        ensures
            r is Some <==> self@.dom().contains(ino),
            r matches Some(p) ==> p@ == self@[ino],
    {
        proof {
            lemma_row_map(self.rows@);
        }
        match self.row_of_ino(ino) {
            Some(i) => Some(&self.rows[i].path),
            None => None,
        }
    }

    /// The inode number of a path, if known.
    pub fn ino(&self, path: &HostPath) -> (r: Option<Ino>)
        requires
            self.wf(),
        ensures
            r == ino_of(self@, path@),
    {
        proof {
            lemma_row_map(self.rows@);
        }
        match self.row_of_path(path) {
            Some(i) => {
                proof {
                    let k = self.rows@[i as int].ino;
                    assert(self@.dom().contains(k) && self@[k] == path@);
                }
                Some(self.rows[i].ino)
            },
            None => {
                proof {
                    assert forall|k: Ino| self@.dom().contains(k) implies #[trigger] self@[k]
                        != path@ by {
                        let i = choose|i: int|
                            0 <= i < self.rows@.len() && #[trigger] self.rows@[i].ino == k;
                        assert(self@[self.rows@[i].ino] == self.rows@[i].path@);
                    }
                }
                None
            },
        }
    }

    /// The inode number of a path; an unknown path gets the next one.
    pub fn intern(&mut self, path: &HostPath) -> (r: Ino)
        requires
            old(self).wf(),
            old(self).next() < Ino::MAX,
        ensures
            final(self).wf(),
            ino_of(old(self)@, path@) matches Some(known) ==> r == known && *final(self) == *old(
                self,
            ),
            ino_of(old(self)@, path@) is None ==> {
                &&& r == old(self).next()
                &&& final(self)@ == old(self)@.insert(r, path@)
                &&& final(self).next() == r + 1
                &&& !old(self)@.dom().contains(r)
            },
            final(self)@.dom().contains(r) && final(self)@[r] == path@,
            (final(self)@, final(self).next() as int) == table_after(
                old(self)@,
                old(self).next() as int,
                TableOp::Intern(path@),
            ),
    {
        if let Some(known) = self.ino(path) {
            return known;
        }
        let ino: Ino = self.next_ino;
        let ghost before = self.rows@;
        proof {
            lemma_row_map(before);
            use_type_invariant(path);
            assert(!self@.dom().contains(ino));
        }
        self.next_ino = self.next_ino + 1;
        self.rows.push(Row { ino, path: path.clone() });
        proof {
            assert(self.rows@.drop_last() =~= before);
            assert(self@ == old(self)@.insert(ino, path@));
            assert forall|i: int, j: int|
                #![trigger self.rows@[i], self.rows@[j]]
                0 <= i < j < self.rows@.len() implies self.rows@[i].ino != self.rows@[j].ino by {
                assert(before[i] == self.rows@[i]);
                if j < before.len() {
                    assert(before[j] == self.rows@[j]);
                }
            }
            assert forall|a: Ino, b: Ino|
                #![trigger self@[a], self@[b]]
                self@.dom().contains(a) && self@.dom().contains(b) && self@[a] == self@[b] implies a
                == b by {
                if a != ino && b != ino {
                    assert(old(self)@[a] == old(self)@[b]);
                } else if a != b {
                    let c = if a == ino {
                        b
                    } else {
                        a
                    };
                    assert(old(self)@[c] == path@);
                }
            }
        }
        ino
    }

    fn remove_row(&mut self, i: usize)
        requires
            old(self).wf(),
            i < old(self).rows@.len(),
            old(self).rows@[i as int].ino != ROOT_INO,
        ensures
            final(self).wf(),
            final(self)@ == old(self)@.remove(old(self).rows@[i as int].ino),
            final(self).next() == old(self).next(),
    {
        let ghost before = self.rows@;
        let ghost gone = before[i as int].ino;
        self.rows.remove(i);
        proof {
            lemma_row_map(before);
            let after = self.rows@;
            assert(after =~= before.remove(i as int));
            assert forall|a: int, b: int|
                #![trigger after[a], after[b]]
                0 <= a < b < after.len() implies after[a].ino != after[b].ino by {
                let a0 = if a < i { a } else { a + 1 };
                let b0 = if b < i { b } else { b + 1 };
                assert(after[a] == before[a0] && after[b] == before[b0]);
            }
            lemma_row_map(after);
            assert(row_map(after) =~= row_map(before).remove(gone)) by {
                assert forall|k: Ino| row_map(after).dom().contains(k) implies row_map(
                    before,
                ).remove(gone).dom().contains(k) && row_map(before)[k] == row_map(after)[k] by {
                    let a = choose|a: int| 0 <= a < after.len() && #[trigger] after[a].ino == k;
                    let a0 = if a < i { a } else { a + 1 };
                    assert(after[a] == before[a0]);
                    assert(before[i as int].ino == gone);
                }
                assert forall|k: Ino| row_map(before).remove(gone).dom().contains(k) implies row_map(
                    after,
                ).dom().contains(k) by {
                    let a = choose|a: int| 0 <= a < before.len() && #[trigger] before[a].ino == k;
                    let a1 = if a < i { a } else { a - 1 };
                    assert(after[a1] == before[a]);
                }
            }
            assert forall|a: Ino, b: Ino|
                #![trigger self@[a], self@[b]]
                self@.dom().contains(a) && self@.dom().contains(b) && self@[a] == self@[b] implies a
                == b by {
                assert(old(self)@[a] == old(self)@[b]);
            }
            assert forall|a: int| 0 <= a < after.len() implies (#[trigger] after[a]).ino
                < self.next_ino && parsed(after[a].path@) by {
                let a0 = if a < i { a } else { a + 1 };
                assert(after[a] == before[a0]);
            }
        }
    }

    /// Retire an inode number. Unknown numbers and that of the root are left
    /// alone.
    pub fn forget_ino(&mut self, ino: Ino)
        requires
            old(self).wf(),
        ensures
            final(self).wf(),
            final(self)@ == retired(old(self)@, ino),
            final(self).next() == old(self).next(),
    {
        if ino == ROOT_INO {
            return;
        }
        match self.row_of_ino(ino) {
            Some(i) => self.remove_row(i),
            None => {
                proof {
                    lemma_row_map(self.rows@);
                    assert(self@.remove(ino) =~= self@);
                }
            },
        }
    }

    /// Retire a path. Unknown paths and that of the root are left alone.
    pub fn forget_path(&mut self, path: &HostPath)
        requires
            old(self).wf(),
        ensures
            final(self).wf(),
            final(self)@ == forgotten(old(self)@, path@),
            final(self).next() == old(self).next(),
    {
        let known = self.ino(path);
        match known {
            Some(ino) => self.forget_ino(ino),
            None => {},
        }
    }

    /// Move `from` to `to` with everything below it. The numbers stay, so
    /// handles on the client side stay valid. What stood at or below `to` is
    /// forgotten first. The root itself neither moves nor gives way.
    pub fn rename(&mut self, from: &HostPath, to: &HostPath)
        requires
            old(self).wf(),
        ensures
            final(self).wf(),
            final(self)@ == renamed(old(self)@, from@, to@),
            final(self).next() == old(self).next(),
    {
        if from.same(to) {
            return;
        }
        if to.is_empty() {
            let next: Ino = self.next_ino;
            *self = InodeTable::new();
            proof {
                lemma_row_map(old(self).rows@);
                assert(old(self)@.dom().contains(ROOT_INO));
                let i = choose|i: int|
                    0 <= i < old(self).rows@.len() && #[trigger] old(self).rows@[i].ino == ROOT_INO;
                assert(old(self).rows@[i].ino < next);
            }
            self.next_ino = next;
            return;
        }
        if from.is_empty() {
            self.sink(to);
            return;
        }
        let inner: bool = from.starts_with(to);
        let ghost before = self.rows@;
        proof {
            lemma_row_map(before);
            use_type_invariant(to);
        }
        let mut rows: Vec<Row> = Vec::new();
        let mut i: usize = 0;
        assert(row_map(rows@) =~= moved(row_map(before.take(0)), from@, to@));
        while i < self.rows.len()
            invariant
                i <= self.rows@.len(),
                self.rows@ == before,
                *self == *old(self),
                old(self).wf(),
                parsed(to@),
                inner == under(from@, to@),
                distinct(rows@),
                row_map(rows@) == moved(row_map(before.take(i as int)), from@, to@),
                forall|b: int|
                    #![trigger rows@[b]]
                    0 <= b < rows@.len() ==> rows@[b].ino < self.next_ino && parsed(rows@[b].path@),
            decreases self.rows@.len() - i,
        {
            let row: &Row = &self.rows[i];
            let ghost done = rows@;
            proof {
                lemma_rename_row(before, i as int, done, from@, to@);
            }
            if !row.path.starts_with(to) || (inner && row.path.starts_with(from)) {
                let path: HostPath = if row.path.same(from) {
                    to.clone()
                } else {
                    match row.path.strip_prefix(from) {
                        Some(rest) => {
                            proof {
                                use_type_invariant(&rest);
                                crate::path::lemma_join_parsed(to@, rest@);
                                assert(rest@ =~= row.path@.skip(from@.len() as int));
                            }
                            to.join_to(&rest)
                        },
                        None => row.path.clone(),
                    }
                };
                assert(path@ == rebased(before[i as int].path@, from@, to@));
                proof {
                    use_type_invariant(&path);
                }
                rows.push(Row { ino: row.ino, path });
                assert(rows@.drop_last() =~= done);
            }
            i += 1;
        }
        self.rows = rows;
        proof {
            assert(before.take(before.len() as int) =~= before);
            lemma_parsed_rows(before);
            lemma_rename_one_to_one(old(self)@, from@, to@);
            assert(!under(Seq::<Comp>::empty(), to@) && !under(Seq::<Comp>::empty(), from@));
            assert(has_root(self@));
        }
    }

    /// Move everything but the root itself below `to`.
    fn sink(&mut self, to: &HostPath)
        requires
            old(self).wf(),
            to@.len() > 0,
        ensures
            final(self).wf(),
            final(self)@ == sunk(old(self)@, to@),
            final(self).next() == old(self).next(),
    {
        let ghost before = self.rows@;
        let ghost m = self@;
        proof {
            lemma_row_map(before);
            use_type_invariant(to);
        }
        let dot: HostPath = HostPath::dot();
        let mut rows: Vec<Row> = Vec::new();
        let mut i: usize = 0;
        assert(row_map(rows@) =~= sunk_part(row_map(before.take(0)), m, to@));
        while i < self.rows.len()
            invariant
                i <= self.rows@.len(),
                self.rows@ == before,
                *self == *old(self),
                old(self).wf(),
                m == self@,
                parsed(to@),
                dot@ == seq![Comp::CurDir],
                distinct(rows@),
                row_map(rows@) == sunk_part(row_map(before.take(i as int)), m, to@),
                forall|b: int|
                    #![trigger rows@[b]]
                    0 <= b < rows@.len() ==> rows@[b].ino < self.next_ino && parsed(rows@[b].path@),
            decreases self.rows@.len() - i,
        {
            let row: &Row = &self.rows[i];
            let ghost done = rows@;
            proof {
                lemma_sink_row(before, i as int, done, m, to@);
            }
            if row.ino == ROOT_INO {
                rows.push(Row { ino: ROOT_INO, path: row.path.clone() });
                assert(rows@.drop_last() =~= done);
            } else if !row.path.starts_with(to) {
                let gives_way: bool = match row.path.strip_prefix(&dot) {
                    Some(rest) => {
                        assert(rest@ =~= row.path@.skip(1));
                        !rest.is_empty() && !rest.starts_with(to) && self.ino(&rest).is_some()
                    },
                    None => false,
                };
                if !gives_way {
                    proof {
                        use_type_invariant(&row.path);
                        crate::path::lemma_join_parsed(to@, row.path@);
                    }
                    rows.push(Row { ino: row.ino, path: to.join_to(&row.path) });
                    assert(rows@.drop_last() =~= done);
                }
            }
            i += 1;
        }
        self.rows = rows;
        proof {
            assert(before.take(before.len() as int) =~= before);
            assert(sunk_part(m, m, to@) =~= sunk(m, to@));
            lemma_parsed_rows(before);
            lemma_sunk_one_to_one(m, to@);
            assert(has_root(self@));
        }
    }

    /// The number of known inode numbers.
    pub fn len(&self) -> (n: usize)
        requires
            self.wf(),
        ensures
            self@.dom().finite(),
            n == self@.len(),
    {
        proof {
            lemma_row_map(self.rows@);
        }
        self.rows.len()
    }

    /// Whether nothing is known.
    pub fn is_empty(&self) -> (r: bool)
        requires
            self.wf(),
        ensures
            r == (self@.len() == 0),
    {
        self.len() == 0
    }
}

proof fn lemma_parsed_rows(rows: Seq<Row>)
    requires
        distinct(rows),
        forall|i: int| 0 <= i < rows.len() ==> parsed((#[trigger] rows[i]).path@),
    ensures
        forall|k: Ino| row_map(rows).dom().contains(k) ==> parsed(#[trigger] row_map(rows)[k]),
{
    lemma_row_map(rows);
    assert forall|k: Ino| row_map(rows).dom().contains(k) implies parsed(
        #[trigger] row_map(rows)[k],
    ) by {
        let a = choose|a: int| 0 <= a < rows.len() && #[trigger] rows[a].ino == k;
        assert(row_map(rows)[rows[a].ino] == rows[a].path@);
    }
}

/// One row more: the row is dropped where it gives way, and moved otherwise.
proof fn lemma_rename_row(
    before: Seq<Row>,
    i: int,
    done: Seq<Row>,
    from: Seq<Comp>,
    to: Seq<Comp>,
)
    requires
        0 <= i < before.len(),
        distinct(before),
        distinct(done),
        row_map(done) == moved(row_map(before.take(i)), from, to),
    ensures
        displaced(before[i].path@, from, to) ==> row_map(done) == moved(
            row_map(before.take(i + 1)),
            from,
            to,
        ),
        !displaced(before[i].path@, from, to) ==> row_map(done).insert(
            before[i].ino,
            rebased(before[i].path@, from, to),
        ) == moved(row_map(before.take(i + 1)), from, to),
        forall|b: int| 0 <= b < done.len() ==> (#[trigger] done[b]).ino != before[i].ino,
{
    let part = before.take(i);
    let m = row_map(part);
    let k = before[i].ino;
    let p = before[i].path@;
    assert(before.take(i + 1).drop_last() =~= part);
    assert(row_map(before.take(i + 1)) == m.insert(k, p));
    assert forall|a: int, b: int|
        #![trigger part[a], part[b]]
        0 <= a < b < part.len() implies part[a].ino != part[b].ino by {
        assert(before[a] == part[a] && before[b] == part[b]);
    }
    lemma_row_map(part);
    lemma_row_map(done);
    assert(!m.dom().contains(k)) by {
        if m.dom().contains(k) {
            let a = choose|a: int| 0 <= a < part.len() && #[trigger] part[a].ino == k;
            assert(before[a] == part[a]);
            assert(before[i].ino == k);
        }
    }
    if displaced(p, from, to) {
        assert(row_map(done) =~= moved(m.insert(k, p), from, to));
    } else {
        assert(row_map(done).insert(k, rebased(p, from, to)) =~= moved(m.insert(k, p), from, to));
    }
    assert forall|b: int| 0 <= b < done.len() implies (#[trigger] done[b]).ino != k by {
        assert(row_map(done).dom().contains(done[b].ino));
    }
}

/// What becomes of a part of the table `m` when everything moves below `to`.
spec fn sunk_part(
    part: Map<Ino, Seq<Comp>>,
    m: Map<Ino, Seq<Comp>>,
    to: Seq<Comp>,
) -> Map<Ino, Seq<Comp>> {
    Map::new(
        |k: Ino|
            part.dom().contains(k) && (k == ROOT_INO || !under(part[k], to) && !overtaken(
                m,
                part[k],
                to,
            )),
        |k: Ino|
            if k == ROOT_INO {
                part[k]
            } else {
                join_path(to, part[k])
            },
    )
}

/// One row more of those that move below `to`.
proof fn lemma_sink_row(
    before: Seq<Row>,
    i: int,
    done: Seq<Row>,
    m: Map<Ino, Seq<Comp>>,
    to: Seq<Comp>,
)
    requires
        0 <= i < before.len(),
        distinct(before),
        distinct(done),
        row_map(done) == sunk_part(row_map(before.take(i)), m, to),
    ensures
        ({
            let k = before[i].ino;
            let p = before[i].path@;
            let all = sunk_part(row_map(before.take(i + 1)), m, to);
            &&& k == ROOT_INO ==> row_map(done).insert(k, p) == all
            &&& k != ROOT_INO && (under(p, to) || overtaken(m, p, to)) ==> row_map(done) == all
            &&& k != ROOT_INO && !under(p, to) && !overtaken(m, p, to) ==> row_map(done).insert(
                k,
                join_path(to, p),
            ) == all
        }),
        forall|b: int| 0 <= b < done.len() ==> (#[trigger] done[b]).ino != before[i].ino,
{
    let part = before.take(i);
    let old_map = row_map(part);
    let k = before[i].ino;
    let p = before[i].path@;
    assert(before.take(i + 1).drop_last() =~= part);
    assert(row_map(before.take(i + 1)) == old_map.insert(k, p));
    assert forall|a: int, b: int|
        #![trigger part[a], part[b]]
        0 <= a < b < part.len() implies part[a].ino != part[b].ino by {
        assert(before[a] == part[a] && before[b] == part[b]);
    }
    lemma_row_map(part);
    lemma_row_map(done);
    assert(!old_map.dom().contains(k)) by {
        if old_map.dom().contains(k) {
            let a = choose|a: int| 0 <= a < part.len() && #[trigger] part[a].ino == k;
            assert(before[a] == part[a]);
            assert(before[i].ino == k);
        }
    }
    let all = sunk_part(old_map.insert(k, p), m, to);
    if k == ROOT_INO {
        assert(row_map(done).insert(k, p) =~= all);
    } else if under(p, to) || overtaken(m, p, to) {
        assert(row_map(done) =~= all);
    } else {
        assert(row_map(done).insert(k, join_path(to, p)) =~= all);
    }
    assert forall|b: int| 0 <= b < done.len() implies (#[trigger] done[b]).ino != k by {
        assert(row_map(done).dom().contains(done[b].ino));
    }
}

proof fn lemma_sunk_one_to_one(m: Map<Ino, Seq<Comp>>, to: Seq<Comp>)
    requires
        one_to_one(m),
        has_root(m),
        to.len() > 0,
    ensures
        one_to_one(sunk(m, to)),
{
    let r = sunk(m, to);
    assert forall|a: Ino, b: Ino|
        #![trigger r[a], r[b]]
        r.dom().contains(a) && r.dom().contains(b) && r[a] == r[b] implies a == b by {
        if a == ROOT_INO || b == ROOT_INO {
            let c = if a == ROOT_INO {
                b
            } else {
                a
            };
            if c != ROOT_INO {
                assert(r[c].len() > 0);
            }
        } else {
            lemma_sunk_apart(m, to, a, b);
            lemma_sunk_apart(m, to, b, a);
            let (p, q) = (m[a], m[b]);
            let x = if p.len() > 0 && p[0] is CurDir {
                p.drop_first()
            } else {
                p
            };
            let y = if q.len() > 0 && q[0] is CurDir {
                q.drop_first()
            } else {
                q
            };
            let p_rooted = p.len() > 0 && p[0] is RootDir;
            let q_rooted = q.len() > 0 && q[0] is RootDir;
            if !p_rooted && !q_rooted {
                assert(r[a] == to + x && r[b] == to + y);
                assert(x =~= r[a].skip(to.len() as int));
                assert(y =~= r[b].skip(to.len() as int));
                if p != q {
                    if p.len() > 0 && p[0] is CurDir {
                        if q.len() > 0 && q[0] is CurDir {
                            assert(p =~= seq![Comp::CurDir] + x);
                            assert(q =~= seq![Comp::CurDir] + y);
                        } else {
                            assert(p.skip(1) =~= q);
                        }
                    } else {
                        assert(q.len() > 0 && q[0] is CurDir);
                        assert(q.skip(1) =~= p);
                    }
                }
            } else if p_rooted != q_rooted {
                let (rooted_path, other) = if p_rooted {
                    (p, r[b])
                } else {
                    (q, r[a])
                };
                assert(other.subrange(0, to.len() as int) =~= to);
                assert(under(rooted_path, to));
            }
            assert(m[a] == m[b]);
        }
    }
}

/// Two paths of which one begins with a dot and is the other otherwise do not
/// both move.
proof fn lemma_sunk_apart(m: Map<Ino, Seq<Comp>>, to: Seq<Comp>, a: Ino, b: Ino)
    requires
        one_to_one(m),
        has_root(m),
        a != ROOT_INO,
        b != ROOT_INO,
        sunk(m, to).dom().contains(a),
        sunk(m, to).dom().contains(b),
    ensures
        !(m[a].len() > 0 && m[a][0] is CurDir && m[a].skip(1) == m[b]),
{
    let p = m[a];
    if p.len() > 0 && p[0] is CurDir && p.skip(1) == m[b] {
        assert(p.subrange(0, 1) =~= seq![Comp::CurDir]);
        if p.len() == 1 {
            assert(m[b] =~= Seq::<Comp>::empty());
            assert(m[b] == m[ROOT_INO]);
        }
        assert(m.dom().contains(b) && m[b] == p.skip(1));
        assert(overtaken(m, p, to));
    }
}

/// In a table of parsed paths, what lies below a non-empty `from` moves to
/// `to` by exchange of the leading components.
proof fn lemma_rebased(p: Seq<Comp>, from: Seq<Comp>, to: Seq<Comp>)
    requires
        parsed(p),
        from.len() > 0,
        under(p, from),
    ensures
        rebased(p, from, to) == to + p.skip(from.len() as int),
        under(rebased(p, from, to), to),
{
    let rest = p.skip(from.len() as int);
    if p == from {
        assert(to + rest =~= to);
    } else if rest.len() > 0 {
        assert(rest[0] == p[from.len() as int]);
    } else {
        assert(to + rest =~= to);
    }
    assert((to + rest).subrange(0, to.len() as int) =~= to);
}

proof fn lemma_rename_one_to_one(m: Map<Ino, Seq<Comp>>, from: Seq<Comp>, to: Seq<Comp>)
    requires
        one_to_one(m),
        from.len() > 0,
        forall|k: Ino| m.dom().contains(k) ==> parsed(#[trigger] m[k]),
    ensures
        one_to_one(moved(m, from, to)),
{
    let r = moved(m, from, to);
    assert forall|a: Ino, b: Ino|
        #![trigger r[a], r[b]]
        r.dom().contains(a) && r.dom().contains(b) && r[a] == r[b] implies a == b by {
        let p = m[a];
        let q = m[b];
        assert(r[a] == rebased(p, from, to) && r[b] == rebased(q, from, to));
        if under(p, from) {
            lemma_rebased(p, from, to);
        }
        if under(q, from) {
            lemma_rebased(q, from, to);
        }
        if p == from {
            assert(under(p, from)) by {
                assert(p.subrange(0, from.len() as int) =~= from);
            }
        }
        if q == from {
            assert(under(q, from)) by {
                assert(q.subrange(0, from.len() as int) =~= from);
            }
        }
        if under(p, from) && under(q, from) {
            let n = from.len() as int;
            assert(p.skip(n) =~= (to + p.skip(n)).skip(to.len() as int));
            assert(q.skip(n) =~= (to + q.skip(n)).skip(to.len() as int));
            crate::path::lemma_rebase_inverse(p, from);
            crate::path::lemma_rebase_inverse(q, from);
            assert(p == q);
        }
        assert(p == q);
    }
}

/// What a table holds: an inode number has a path exactly where the path has
/// that number, there are finitely many of them, and the root has its own.
pub proof fn law_both_ways(t: InodeTable, ino: Ino, p: Seq<Comp>)
    requires
        t.wf(),
    ensures
        t@.dom().contains(ino) && t@[ino] == p <==> ino_of(t@, p) == Some(ino),
        one_to_one(t@),
        t@.dom().finite(),
        t@.dom().contains(ROOT_INO) && t@[ROOT_INO] == Seq::<Comp>::empty(),
        ino_of(t@, Seq::<Comp>::empty()) == Some(ROOT_INO),
{
    lemma_row_map(t.rows@);
    if t@.dom().contains(ino) && t@[ino] == p {
        let k = ino_of(t@, p)->0;
        assert(t@.dom().contains(k) && t@[k] == p);
    }
    assert(t@[ROOT_INO] == Seq::<Comp>::empty());
    let k = ino_of(t@, Seq::<Comp>::empty())->0;
    assert(t@.dom().contains(k) && t@[k] == Seq::<Comp>::empty());
}

/// A rename keeps the inode number: the one that stood for `from` stands for
/// `to`, also where the two are the same path. Where neither lies below the
/// other, nothing is left at or below `from`. Of the root nothing is said: it
/// does not move.
pub proof fn law_rename_preserves_ino(t: InodeTable, from: Seq<Comp>, to: Seq<Comp>, ino: Ino)
    requires
        t.wf(),
        ino_of(t@, from) == Some(ino),
        from.len() > 0,
        to.len() > 0,
    ensures
        ino_of(renamed(t@, from, to), to) == Some(ino),
        from == to ==> renamed(t@, from, to) == t@,
        !under(from, to) && !under(to, from) ==> {
            &&& ino_of(renamed(t@, from, to), from) is None
            &&& forall|k: Ino| #[trigger]
                renamed(t@, from, to).dom().contains(k) ==> !under(
                    renamed(t@, from, to)[k],
                    from,
                )
        },
{
    let m = t@;
    lemma_parsed_rows(t.rows@);
    let r = renamed(m, from, to);
    assert(m.dom().contains(ino) && m[ino] == from);
    assert(from.subrange(0, from.len() as int) =~= from);
    assert(r.dom().contains(ino) && r[ino] == to);
    lemma_rename_one_to_one(m, from, to);
    let j = ino_of(r, to)->0;
    assert(r.dom().contains(j) && r[j] == to);
    if !under(from, to) && !under(to, from) {
        assert forall|k: Ino| #[trigger] r.dom().contains(k) implies !under(r[k], from) by {
            let p = m[k];
            if under(p, from) {
                lemma_rebased(p, from, to);
                if under(r[k], from) {
                    // both `from` and `to` lead `r[k]`, so the shorter leads the longer
                    if from.len() <= to.len() {
                        assert(to.subrange(0, from.len() as int) =~= r[k].subrange(
                            0,
                            from.len() as int,
                        )) by {
                            assert(r[k].subrange(0, to.len() as int) == to);
                        }
                    } else {
                        assert(from.subrange(0, to.len() as int) =~= r[k].subrange(
                            0,
                            to.len() as int,
                        )) by {
                            assert(r[k].subrange(0, from.len() as int) == from);
                        }
                    }
                }
            }
        }
        if ino_of(r, from) is Some {
            let k = ino_of(r, from)->0;
            assert(r.dom().contains(k) && r[k] == from);
        }
    }
}

/// What lies below `from` moves along with its number, unless it gives way
/// itself because `to` lies below `from`.
pub proof fn law_rename_moves_descendants(
    t: InodeTable,
    from: Seq<Comp>,
    to: Seq<Comp>,
    rest: Seq<Comp>,
    ino: Ino,
)
    requires
        t.wf(),
        ino_of(t@, from + rest) == Some(ino),
        from.len() > 0,
        to.len() > 0,
        under(from, to) || !under(from + rest, to),
    ensures
        ino_of(renamed(t@, from, to), to + rest) == Some(ino),
{
    let m = t@;
    lemma_parsed_rows(t.rows@);
    let p = from + rest;
    let r = renamed(m, from, to);
    assert(m.dom().contains(ino) && m[ino] == p);
    assert(p.subrange(0, from.len() as int) =~= from);
    lemma_rebased(p, from, to);
    assert(p.skip(from.len() as int) =~= rest);
    lemma_rename_one_to_one(m, from, to);
    assert(r.dom().contains(ino) && r[ino] == to + rest);
    let j = ino_of(r, to + rest)->0;
    assert(r.dom().contains(j) && r[j] == to + rest);
}

/// Every rename leaves the root its number and its path. What replaces the root
/// leaves nothing else; where the root moves, what stood elsewhere moves along
/// and keeps its number, unless a path that differs from it by a dot at the
/// beginning takes its place.
pub proof fn law_rename_keeps_root(t: InodeTable, from: Seq<Comp>, to: Seq<Comp>, ino: Ino)
    requires
        t.wf(),
    ensures
        has_root(renamed(t@, from, to)),
        one_to_one(renamed(t@, from, to)),
        from != to && to.len() == 0 && ino != ROOT_INO ==> !renamed(t@, from, to).dom().contains(
            ino,
        ),
        to.len() > 0 && from.len() == 0 && ino != ROOT_INO && t@.dom().contains(ino) ==> {
            let gone = under(t@[ino], to) || overtaken(t@, t@[ino], to);
            &&& renamed(t@, from, to).dom().contains(ino) == !gone
            &&& !gone ==> renamed(t@, from, to)[ino] == join_path(to, t@[ino])
        },
{
    let m = t@;
    lemma_parsed_rows(t.rows@);
    if from != to && to.len() > 0 {
        if from.len() == 0 {
            lemma_sunk_one_to_one(m, to);
        } else {
            lemma_rename_one_to_one(m, from, to);
            assert(!under(Seq::<Comp>::empty(), to) && !under(Seq::<Comp>::empty(), from));
        }
    }
}

/// Every number in a table was handed out before the next one, so a path that
/// is new gets a number greater than all of them.
pub proof fn law_numbers_below_next(t: InodeTable)
    requires
        t.wf(),
    ensures
        forall|k: Ino| #[trigger] t@.dom().contains(k) ==> k < t.next(),
{
    lemma_row_map(t.rows@);
    assert forall|k: Ino| #[trigger] t@.dom().contains(k) implies k < t.next() by {
        let i = choose|i: int| 0 <= i < t.rows@.len() && #[trigger] t.rows@[i].ino == k;
        assert(t.rows@[i].ino < t.next_ino);
    }
}

/// Something that is done to a table.
pub enum TableOp {
    Intern(Seq<Comp>),
    ForgetIno(Ino),
    ForgetPath(Seq<Comp>),
    Rename { from: Seq<Comp>, to: Seq<Comp> },
}

/// A table and its next number after something was done to it.
pub open spec fn table_after(m: Map<Ino, Seq<Comp>>, next: int, op: TableOp) -> (
    Map<Ino, Seq<Comp>>,
    int,
) {
    match op {
        TableOp::Intern(p) => if ino_of(m, p) is Some {
            (m, next)
        } else {
            (m.insert(next as Ino, p), next + 1)
        },
        TableOp::ForgetIno(ino) => (retired(m, ino), next),
        TableOp::ForgetPath(p) => (forgotten(m, p), next),
        TableOp::Rename { from, to } => (renamed(m, from, to), next),
    }
}

/// A table and its next number after a number of things were done to it.
pub open spec fn table_after_all(m: Map<Ino, Seq<Comp>>, next: int, ops: Seq<TableOp>) -> (
    Map<Ino, Seq<Comp>>,
    int,
)
    decreases ops.len(),
{
    if ops.len() == 0 {
        (m, next)
    } else {
        let (before, n) = table_after_all(m, next, ops.drop_last());
        table_after(before, n, ops.last())
    }
}

/// A number is handed out once: whatever is done to a table in between, a path
/// that is new then gets a number greater than every number that the table
/// holds or ever held since, retired ones included.
pub proof fn law_numbers_never_reused(t: InodeTable, ops: Seq<TableOp>, upto: int)
    requires
        t.wf(),
        0 <= upto <= ops.len(),
        t.next() + ops.len() <= Ino::MAX,
    ensures
        ({
            let (mid, mid_next) = table_after_all(t@, t.next() as int, ops.take(upto));
            let (last, last_next) = table_after_all(t@, t.next() as int, ops);
            &&& forall|k: Ino| #[trigger] mid.dom().contains(k) ==> k < mid_next
            &&& mid_next <= last_next <= t.next() + ops.len()
            &&& forall|k: Ino| #[trigger] mid.dom().contains(k) ==> k < last_next
        }),
    decreases ops.len(),
{
    lemma_numbers_below(t, ops);
    if upto < ops.len() {
        law_numbers_never_reused(t, ops.drop_last(), upto);
        assert(ops.drop_last().take(upto) =~= ops.take(upto));
    } else {
        assert(ops.take(upto) =~= ops);
    }
}

proof fn lemma_numbers_below(t: InodeTable, ops: Seq<TableOp>)
    requires
        t.wf(),
        t.next() + ops.len() <= Ino::MAX,
    ensures
        ({
            let (m, next) = table_after_all(t@, t.next() as int, ops);
            &&& forall|k: Ino| #[trigger] m.dom().contains(k) ==> k < next
            &&& ROOT_INO < next <= t.next() + ops.len()
        }),
    decreases ops.len(),
{
    if ops.len() == 0 {
        law_numbers_below_next(t);
        assert(t@.dom().contains(ROOT_INO));
    } else {
        lemma_numbers_below(t, ops.drop_last());
        let (before, n) = table_after_all(t@, t.next() as int, ops.drop_last());
        let (m, next) = table_after(before, n, ops.last());
        assert forall|k: Ino| #[trigger] m.dom().contains(k) implies k < next by {
            assert(k == ROOT_INO || before.dom().contains(k) || k == n);
        }
    }
}

/// What neither lies below `from` nor below `to` stays as it is, and what gives
/// way to the newcomer is forgotten.
pub proof fn law_rename_leaves_others(t: InodeTable, from: Seq<Comp>, to: Seq<Comp>, ino: Ino)
    requires
        t.wf(),
        t@.dom().contains(ino),
        from.len() > 0,
        to.len() > 0,
    ensures
        !under(t@[ino], from) && !under(t@[ino], to) ==> renamed(t@, from, to).dom().contains(ino)
            && renamed(t@, from, to)[ino] == t@[ino],
        !under(t@[ino], from) && under(t@[ino], to) ==> !renamed(t@, from, to).dom().contains(ino),
{
    assert(from.subrange(0, from.len() as int) =~= from);
}

/// Asking for a path again gives the same number, and distinct paths have
/// distinct numbers.
pub proof fn law_intern_stable(m: Map<Ino, Seq<Comp>>, p: Seq<Comp>, q: Seq<Comp>)
    requires
        one_to_one(m),
        ino_of(m, p) is Some,
        ino_of(m, q) is Some,
    ensures
        ino_of(m, p) == ino_of(m, q) <==> p == q,
{
    assert(m[ino_of(m, p)->0] == p);
    assert(m[ino_of(m, q)->0] == q);
}

/// A retired number is unknown and so is its path; every other number keeps
/// its path, those of the paths below included. To retire it again changes
/// nothing, nor does it to retire an unknown number or that of the root.
pub proof fn law_retire(t: InodeTable, ino: Ino)
    requires
        t.wf(),
    ensures
        ino != ROOT_INO ==> !retired(t@, ino).dom().contains(ino),
        ino != ROOT_INO && t@.dom().contains(ino) ==> ino_of(retired(t@, ino), t@[ino]) is None,
        forall|k: Ino| #![trigger t@.dom().contains(k)]
            k != ino ==> (retired(t@, ino).dom().contains(k) <==> t@.dom().contains(k)) && (
            t@.dom().contains(k) ==> retired(t@, ino)[k] == t@[k]),
        retired(retired(t@, ino), ino) == retired(t@, ino),
        !t@.dom().contains(ino) ==> retired(t@, ino) == t@,
        ino == ROOT_INO ==> retired(t@, ino) == t@,
{
    let r = retired(t@, ino);
    if ino != ROOT_INO && t@.dom().contains(ino) && ino_of(r, t@[ino]) is Some {
        let k = ino_of(r, t@[ino])->0;
        assert(r.dom().contains(k) && r[k] == t@[ino]);
        assert(t@[k] == t@[ino]);
    }
    assert(retired(r, ino) =~= r);
    if !t@.dom().contains(ino) {
        assert(r =~= t@);
    }
}

/// A forgotten path is unknown in both directions, and to forget it again
/// changes nothing. The root is not forgotten.
pub proof fn law_forget_both_directions(t: InodeTable, p: Seq<Comp>)
    requires
        t.wf(),
    ensures
        p.len() > 0 ==> ino_of(forgotten(t@, p), p) is None,
        p.len() > 0 ==> (ino_of(t@, p) matches Some(k) ==> !forgotten(t@, p).dom().contains(k)),
        ino_of(t@, p) matches Some(k) ==> forgotten(t@, p) == retired(t@, k),
        ino_of(t@, p) is None ==> forgotten(t@, p) == t@,
        forgotten(forgotten(t@, p), p) == forgotten(t@, p),
        p.len() == 0 ==> forgotten(t@, p) == t@,
{
    let m = t@;
    let f = forgotten(m, p);
    law_both_ways(t, ROOT_INO, p);
    if p.len() == 0 {
        assert(p =~= Seq::<Comp>::empty());
    } else if ino_of(m, p) is Some {
        let j = ino_of(m, p)->0;
        assert(m.dom().contains(j) && m[j] == p);
        assert(j != ROOT_INO);
        if ino_of(f, p) is Some {
            let k = ino_of(f, p)->0;
            assert(f.dom().contains(k) && f[k] == p);
            assert(m.dom().contains(k) && m[k] == p);
        }
    }
}

impl Default for InodeTable {
    fn default() -> (r: Self)
        ensures
            r.wf(),
            r@ == map![ROOT_INO => Seq::<Comp>::empty()],
            r.next() == ROOT_INO + 1,
    {
        InodeTable::new()
    }
}

} // verus!
