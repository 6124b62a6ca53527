//! A table kept in memory: rows in a vector, found by a scan, written by
//! insert-or-refresh on the key.

use crate::error::StoreError;
use crate::table::{
    has_key, ids_in_mailbox, lemma_position, lemma_upsert, lemma_upsert_all,
    lemma_upsert_all_prefix, Entry, Row, Table,
};
use crate::watermark::as_ints;
use vstd::prelude::*;

verus! {

/// What can be kept in a stored table: a value whose view is an entry, and
/// which can be compared by key, tested for its mailbox and refreshed.
pub trait Record: View + Sized where Self::V: Entry {
    /// Whether two records have the same key.
    fn same_key(&self, other: &Self) -> (same: bool)
        ensures
            same == (self@.key() == other@.key()),
    ;

    /// Whether the record was observed at `mailbox` on `domain`.
    fn observed_at(&self, domain: u32, mailbox: &Vec<u8>) -> (observed: bool)
        ensures
            observed == self@.in_mailbox(domain, mailbox@),
    ;

    /// Takes over from `write`, which has the same key, the columns that
    /// every write refreshes.
    fn refresh(&mut self, write: Self)
        requires
            old(self)@.key() == write@.key(),
        ensures
            final(self)@ == old(self)@.refreshed(write@),
    ;
}

/// The views of a sequence of values.
pub open spec fn views<R: View>(values: Seq<R>) -> Seq<R::V> {
    Seq::new(values.len(), |i: int| values[i]@)
}

/// A stored row.
#[derive(Clone, Debug, PartialEq, Eq)]
pub struct StoredRow<R> {
    /// The identifier that the table assigned.
    pub id: i64,
    /// What the row holds.
    pub fields: R,
}

impl<R: View> View for StoredRow<R> {
    type V = Row<R::V>;

    open spec fn view(&self) -> Row<R::V> {
        Row { id: self.id as int, entry: self.fields@ }
    }
}

/// A table in memory.
pub struct StoredTable<R> {
    rows: Vec<StoredRow<R>>,
    last_id: i64,
}

impl<R: Record> View for StoredTable<R> where R::V: Entry {
    type V = Table<R::V>;

    closed spec fn view(&self) -> Table<R::V> {
        Table { rows: views(self.rows@), last_id: self.last_id as int }
    }
}

impl<R: Record> StoredTable<R> where R::V: Entry {
    /// Whether the table is well-formed.
    pub open spec fn wf(&self) -> bool {
        self@.wf()
    }

    /// A table without rows.
    pub fn new() -> (table: Self)
        ensures
            table@ == Table::<R::V>::empty(),
            table.wf(),
    {
        let table = StoredTable { rows: Vec::new(), last_id: 0 };
        assert(table@.rows =~= Seq::empty());
        table
    }

    /// The number of rows.
    pub fn len(&self) -> (len: usize)
        ensures
            len == self@.rows.len(),
    {
        self.rows.len()
    }

    /// The row at position `at`, counted from the oldest.
    pub fn row(&self, at: usize) -> (row: &StoredRow<R>)
        requires
            at < self@.rows.len(),
        ensures
            row@ == self@.rows[at as int],
    {
        &self.rows[at]
    }

    /// The position of the row that has the key of `probe`.
    pub fn find(&self, probe: &R) -> (found: Option<usize>)
        ensures
            found is Some <==> self@.holds(probe@.key()),
            found matches Some(at) ==> {
                &&& at < self@.rows.len()
                &&& self@.rows[at as int].entry.key() == probe@.key()
                &&& forall|j: int|
                    0 <= j < at ==> (#[trigger] self@.rows[j]).entry.key() != probe@.key()
            },
    {
        let mut i: usize = 0;
        while i < self.rows.len()
            invariant
                i <= self.rows@.len(),
                forall|j: int| 0 <= j < i ==> (#[trigger] self@.rows[j]).entry.key() != probe@.key(),
            decreases self.rows@.len() - i,
        {
            if self.rows[i].fields.same_key(probe) {
                assert(self@.rows[i as int].entry.key() == probe@.key());
                return Some(i);
            }
            i += 1;
        }
        None
    }

    /// The identifiers of the rows observed at `mailbox` on `domain`, oldest
    /// first.
    pub fn ids_in_mailbox(&self, domain: u32, mailbox: &Vec<u8>) -> (ids: Vec<i64>)
        ensures
            as_ints(ids@) == self@.ids_in_mailbox(domain, mailbox@),
    {
        let mut ids: Vec<i64> = Vec::new();
        let mut i: usize = 0;
        assert(as_ints(ids@) =~= ids_in_mailbox(self@.rows.take(0), domain, mailbox@));
        while i < self.rows.len()
            invariant
                i <= self.rows@.len(),
                as_ints(ids@) == ids_in_mailbox(self@.rows.take(i as int), domain, mailbox@),
            decreases self.rows@.len() - i,
        {
            let ghost before = ids@;
            assert(self@.rows.take(i + 1).drop_last() =~= self@.rows.take(i as int));
            if self.rows[i].fields.observed_at(domain, mailbox) {
                ids.push(self.rows[i].id);
                assert(as_ints(ids@) =~= as_ints(before).push(self@.rows[i as int].id));
            }
            i += 1;
        }
        assert(self@.rows.take(self@.rows.len() as int) =~= self@.rows);
        ids
    }

    /// Whether one of the first `upto` of `writes` has the key of the one
    /// that follows them.
    fn seen_before(writes: &Vec<R>, upto: usize) -> (seen: bool)
        requires
            upto < writes@.len(),
        ensures
            seen == has_key(views(writes@).take(upto as int), writes@[upto as int]@.key()),
    {
        let ghost front = views(writes@).take(upto as int);
        let mut j: usize = 0;
        while j < upto
            invariant
                j <= upto < writes@.len(),
                front == views(writes@).take(upto as int),
                forall|k: int| 0 <= k < j ==> (#[trigger] front[k]).key() != writes@[upto as int]@.key(),
            decreases upto - j,
        {
            if writes[j].same_key(&writes[upto]) {
                assert(front[j as int].key() == writes@[upto as int]@.key());
                return true;
            }
            j += 1;
        }
        false
    }

    /// How many rows a batch would add.
    fn count_fresh(&self, writes: &Vec<R>) -> (fresh: usize)
        requires
            self@.wf(),
        ensures
            fresh == self@.upsert_all(views(writes@)).rows.len() - self@.rows.len(),
            fresh == self@.upsert_all(views(writes@)).last_id - self@.last_id,
    {
        let ghost all = views(writes@);
        let mut fresh: usize = 0;
        let mut i: usize = 0;
        assert(all.take(0) =~= Seq::empty());
        while i < writes.len()
            invariant
                i <= writes@.len(),
                fresh <= i,
                self@.wf(),
                all == views(writes@),
                fresh == self@.upsert_all(all.take(i as int)).rows.len() - self@.rows.len(),
            decreases writes@.len() - i,
        {
            let in_table = self.find(&writes[i]).is_some();
            let known = in_table || Self::seen_before(writes, i);
            proof {
                let front = all.take(i as int);
                lemma_upsert_all(self@, front);
                lemma_upsert(self@.upsert_all(front), all[i as int]);
                assert(all.take(i + 1).drop_last() =~= front);
                assert(all.take(i + 1).last() == all[i as int]);
                assert(known == self@.upsert_all(front).holds(all[i as int].key()));
            }
            if !known {
                fresh += 1;
            }
            i += 1;
        }
        proof {
            assert(all.take(writes@.len() as int) =~= all);
            lemma_upsert_all(self@, all);
        }
        fresh
    }

    /// Writes a batch: each write refreshes the row that has its key, or is
    /// inserted under the next identifier where there is none. The batch is
    /// written whole or not at all: where the identifiers do not suffice for
    /// the rows that it would add, nothing is written.
    pub fn upsert_all(&mut self, writes: Vec<R>) -> (done: Result<(), StoreError>)
        requires
            old(self).wf(),
        ensures
            final(self).wf(),
            match done {
                Ok(_) => {
                    &&& final(self)@ == old(self)@.upsert_all(views(writes@))
                    &&& final(self)@.last_id <= i64::MAX
                },
                Err(e) => {
                    &&& e == StoreError::Query
                    &&& final(self)@ == old(self)@
                    &&& old(self)@.upsert_all(views(writes@)).last_id > i64::MAX
                },
            },
    {
        let fresh = self.count_fresh(&writes);
        if fresh as u64 > (i64::MAX - self.last_id) as u64 {
            return Err(StoreError::Query);
        }
        let ghost before = self@;
        let ghost all = views(writes@);
        assert(all.take(0) =~= Seq::empty());
        for write in it: writes
            invariant
                before.wf(),
                all == views(it.seq()),
                before.upsert_all(all).last_id <= i64::MAX,
                self@ == before.upsert_all(all.take(it.index())),
                self@.wf(),
        {
            let ghost at = it.index();
            proof {
                lemma_upsert(self@, write@);
                lemma_upsert_all_prefix(before, all, at + 1);
                assert(all.take(at + 1).drop_last() =~= all.take(at));
                assert(all.take(at + 1).last() == write@);
            }
            match self.find(&write) {
                Some(found) => {
                    proof {
                        lemma_position(self@, write@.key(), found as int);
                    }
                    let ghost was = self@;
                    self.rows[found].fields.refresh(write);
                    assert(self@.rows =~= was.upsert(write@).rows);
                },
                None => {
                    let ghost was = self@;
                    self.last_id = self.last_id + 1;
                    self.rows.push(StoredRow { id: self.last_id, fields: write });
                    assert(self@.rows =~= was.upsert(write@).rows);
                },
            }
        }
        proof {
            assert(all.take(all.len() as int) =~= all);
        }
        Ok(())
    }
}

} // verus!
