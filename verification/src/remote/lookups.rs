//! Cached lookups by directory and name.

use vstd::prelude::*;

use crate::protocol::{FileAttr, Ino};
use crate::text::str_eq;

verus! {

/// A cached lookup: what was found, or that nothing was, until a time.
#[derive(Debug, Clone, Copy, PartialEq, Eq, Structural)]
pub enum LookupEntry {
    Found { attr: FileAttr, expires_at: u64 },
    NotFound { expires_at: u64 },
}

struct Row {
    parent: Ino,
    name: String,
    entry: LookupEntry,
}

/// Lookups by directory and name.
pub struct LookupTable {
    rows: Vec<Row>,
}

spec fn row_map(rows: Seq<Row>) -> Map<(Ino, Seq<char>), LookupEntry>
    decreases rows.len(),
{
    if rows.len() == 0 {
        Map::empty()
    } else {
        row_map(rows.drop_last()).insert(
            (rows.last().parent, rows.last().name@),
            rows.last().entry,
        )
    }
}

spec fn key(r: Row) -> (Ino, Seq<char>) {
    (r.parent, r.name@)
}

spec fn distinct(rows: Seq<Row>) -> bool {
    forall|i: int, j: int|
        #![trigger rows[i], rows[j]]
        0 <= i < j < rows.len() ==> key(rows[i]) != key(rows[j])
}

proof fn lemma_row_map(rows: Seq<Row>)
    requires
        distinct(rows),
    ensures
        forall|i: int|
            #![trigger rows[i]]
            0 <= i < rows.len() ==> row_map(rows).dom().contains(key(rows[i])) && row_map(
                rows,
            )[key(rows[i])] == rows[i].entry,
        forall|k: (Ino, Seq<char>)| #[trigger]
            row_map(rows).dom().contains(k) ==> exists|i: int|
                0 <= i < rows.len() && key(#[trigger] rows[i]) == k,
        row_map(rows).dom().finite(),
        row_map(rows).len() == rows.len(),
    decreases rows.len(),
{
    if rows.len() > 0 {
        let before = rows.drop_last();
        let last = rows.last();
        assert forall|i: int, j: int|
            #![trigger before[i], before[j]]
            0 <= i < j < before.len() implies key(before[i]) != key(before[j]) by {
            assert(rows[i] == before[i] && rows[j] == before[j]);
        }
        lemma_row_map(before);
        assert(rows[rows.len() - 1] == last);
        assert(!row_map(before).dom().contains(key(last))) by {
            if row_map(before).dom().contains(key(last)) {
                let i = choose|i: int|
                    0 <= i < before.len() && key(#[trigger] before[i]) == key(last);
                assert(rows[i] == before[i]);
            }
        }
        assert forall|i: int|
            #![trigger rows[i]]
            0 <= i < rows.len() implies row_map(rows).dom().contains(key(rows[i])) && row_map(
            rows,
        )[key(rows[i])] == rows[i].entry by {
            if i < before.len() {
                assert(before[i] == rows[i]);
            }
        }
        assert forall|k: (Ino, Seq<char>)| #[trigger]
            row_map(rows).dom().contains(k) implies exists|i: int|
            0 <= i < rows.len() && key(#[trigger] rows[i]) == k by {
            if k == key(last) {
                assert(key(rows[rows.len() - 1]) == k);
            } else {
                assert(row_map(before).dom().contains(k));
                let i = choose|i: int| 0 <= i < before.len() && key(#[trigger] before[i]) == k;
                assert(key(rows[i]) == k);
            }
        }
    }
}

impl View for LookupTable {
    type V = Map<(Ino, Seq<char>), LookupEntry>;

    closed spec fn view(&self) -> Map<(Ino, Seq<char>), LookupEntry> {
        row_map(self.rows@)
    }
}

impl LookupTable {
    /// No key occurs twice.
    pub closed spec fn wf(&self) -> bool {
        distinct(self.rows@)
    }

    pub fn new() -> (r: Self)
        ensures
            r.wf(),
            r@ == Map::<(Ino, Seq<char>), LookupEntry>::empty(),
    {
        LookupTable { rows: Vec::new() }
    }

    fn position(&self, parent: Ino, name: &str) -> (r: Option<usize>)
        ensures
            r matches Some(i) ==> i < self.rows@.len() && key(self.rows@[i as int]) == (
                parent,
                name@,
            ),
            r is None ==> forall|i: int|
                0 <= i < self.rows@.len() ==> key(#[trigger] self.rows@[i]) != (parent, name@),
    {
        let mut i: usize = 0;
        while i < self.rows.len()
            invariant
                i <= self.rows@.len(),
                forall|j: int| 0 <= j < i ==> key(#[trigger] self.rows@[j]) != (parent, name@),
            decreases self.rows@.len() - i,
        {
            if self.rows[i].parent == parent && str_eq(&self.rows[i].name, name) {
                return Some(i);
            }
            i += 1;
        }
        None
    }

    pub fn get(&self, parent: Ino, name: &str) -> (r: Option<LookupEntry>)
        requires
            self.wf(),
        ensures
            r is Some <==> self@.dom().contains((parent, name@)),
            r matches Some(e) ==> e == self@[(parent, name@)],
    {
        proof {
            lemma_row_map(self.rows@);
        }
        match self.position(parent, name) {
            Some(i) => {
                proof {
                    let row = self.rows@[i as int];
                    assert(self@.dom().contains(key(row)));
                }
                Some(self.rows[i].entry)
            },
            None => None,
        }
    }

    pub fn remove(&mut self, parent: Ino, name: &str)
        requires
            old(self).wf(),
        ensures
            final(self).wf(),
            final(self)@ == old(self)@.remove((parent, name@)),
    {
        let ghost before = self.rows@;
        let ghost gone = (parent, name@);
        proof {
            lemma_row_map(before);
        }
        match self.position(parent, name) {
            None => {
                assert(self@.remove(gone) =~= self@);
            },
            Some(i) => {
                self.rows.remove(i);
                proof {
                    let after = self.rows@;
                    assert(after =~= before.remove(i as int));
                    assert forall|a: int, b: int|
                        #![trigger after[a], after[b]]
                        0 <= a < b < after.len() implies key(after[a]) != key(after[b]) by {
                        let a0 = if a < i { a } else { a + 1 };
                        let b0 = if b < i { b } else { b + 1 };
                        assert(after[a] == before[a0] && after[b] == before[b0]);
                    }
                    lemma_row_map(after);
                    assert(row_map(after) =~= row_map(before).remove(gone)) by {
                        assert forall|k: (Ino, Seq<char>)| #[trigger]
                            row_map(after).dom().contains(k) implies row_map(before).remove(
                            gone,
                        ).dom().contains(k) && row_map(before)[k] == row_map(after)[k] by {
                            let a = choose|a: int|
                                0 <= a < after.len() && key(#[trigger] after[a]) == k;
                            let a0 = if a < i { a } else { a + 1 };
                            assert(after[a] == before[a0]);
                            assert(key(before[i as int]) == gone);
                        }
                        assert forall|k: (Ino, Seq<char>)|
                            row_map(before).remove(gone).dom().contains(k) implies #[trigger] row_map(
                            after,
                        ).dom().contains(k) by {
                            assert(row_map(before).dom().contains(k));
                            let a = choose|a: int|
                                0 <= a < before.len() && key(#[trigger] before[a]) == k;
                            let a1 = if a < i { a } else { a - 1 };
                            assert(after[a1] == before[a]);
                        }
                    }
                }
            },
        }
    }

    pub fn insert(&mut self, parent: Ino, name: &str, entry: LookupEntry)
        requires
            old(self).wf(),
        ensures
            final(self).wf(),
            final(self)@ == old(self)@.insert((parent, name@), entry),
    {
        self.remove(parent, name);
        let ghost before = self.rows@;
        proof {
            lemma_row_map(before);
        }
        let row = Row { parent, name: name.to_owned(), entry };
        let ghost k = (parent, name@);
        self.rows.push(row);
        proof {
            let after = self.rows@;
            assert(after.drop_last() =~= before);
            assert(!row_map(before).dom().contains(k));
            assert forall|a: int, b: int|
                #![trigger after[a], after[b]]
                0 <= a < b < after.len() implies key(after[a]) != key(after[b]) by {
                assert(before[a] == after[a]);
                if b < before.len() {
                    assert(before[b] == after[b]);
                } else {
                    assert(row_map(before).dom().contains(key(before[a])));
                }
            }
            assert(self@ =~= old(self)@.insert(k, entry));
        }
    }

    pub fn clear(&mut self)
        ensures
            final(self).wf(),
            final(self)@ == Map::<(Ino, Seq<char>), LookupEntry>::empty(),
    {
        self.rows.clear();
    }

    pub fn len(&self) -> (n: usize)
        requires
            self.wf(),
        ensures
            self@.dom().finite(),
            n == self@.len(),
    {
        proof {
            lemma_row_map(self.rows@);
        }
        self.rows.len()
    }
}

} // verus!
