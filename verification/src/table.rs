//! The model of a stored table: rows in the order in which they were
//! inserted, each under an identifier that the store assigned, with at most
//! one row for each key.

use vstd::prelude::*;

verus! {

/// What a row holds besides its identifier.
pub trait Entry: Sized {
    /// The columns that no two rows of a table share.
    type Key;

    /// The key under which the entry is stored.
    spec fn key(self) -> Self::Key;

    /// Whether the entry was observed at `mailbox` on chain `domain`.
    spec fn in_mailbox(self, domain: u32, mailbox: Seq<u8>) -> bool;

    /// The entry that a row holds after `write` arrived for a key that the
    /// row holds already.
    spec fn refreshed(self, write: Self) -> Self;

    /// Whether the columns that every write refreshes are those of `write`.
    spec fn reflects(self, write: Self) -> bool;

    /// A refresh leaves the key and the mailbox of a row as they were, and
    /// leaves the row with the refreshed columns of the write.
    proof fn lemma_refreshed(self, write: Self)
        requires
            self.key() == write.key(),
        ensures
            self.refreshed(write).key() == self.key(),
            self.refreshed(write).reflects(write),
            write.reflects(write),
            forall|domain: u32, mailbox: Seq<u8>|
                self.refreshed(write).in_mailbox(domain, mailbox) == self.in_mailbox(
                    domain,
                    mailbox,
                ),
    ;
}

/// A stored row.
#[verifier::ext_equal]
pub struct Row<E> {
    /// The identifier that the store assigned when the row was inserted.
    pub id: int,
    /// What the row holds.
    pub entry: E,
}

/// A table and the last identifier that it has assigned.
#[verifier::ext_equal]
pub struct Table<E> {
    /// The rows, oldest first.
    pub rows: Seq<Row<E>>,
    /// The greatest identifier assigned so far, 0 before the first.
    pub last_id: int,
}

impl<E: Entry> Table<E> {
    /// The table without rows.
    pub open spec fn empty() -> Self {
        Table { rows: Seq::empty(), last_id: 0 }
    }

    /// Identifiers are positive, grow with the order of insertion and do not
    /// pass `last_id`; no two rows hold the same key.
    pub open spec fn wf(self) -> bool {
        &&& 0 <= self.last_id
        &&& forall|i: int|
            0 <= i < self.rows.len() ==> 0 < (#[trigger] self.rows[i]).id <= self.last_id
        &&& forall|i: int, j: int|
            #![trigger self.rows[i], self.rows[j]]
            0 <= i < j < self.rows.len() ==> self.rows[i].id < self.rows[j].id
        &&& forall|i: int, j: int|
            #![trigger self.rows[i], self.rows[j]]
            0 <= i < j < self.rows.len() ==> self.rows[i].entry.key() != self.rows[j].entry.key()
    }

    /// Whether some row is stored under `key`.
    pub open spec fn holds(self, key: E::Key) -> bool {
        exists|i: int|
            #![trigger self.rows[i]]
            0 <= i < self.rows.len() && self.rows[i].entry.key() == key
    }

    /// The position of a row stored under `key`.
    pub open spec fn position(self, key: E::Key) -> int {
        choose|i: int|
            #![trigger self.rows[i]]
            0 <= i < self.rows.len() && self.rows[i].entry.key() == key
    }

    /// The row stored under `key`.
    pub open spec fn row_of(self, key: E::Key) -> Row<E> {
        self.rows[self.position(key)]
    }

    /// The table after one write: a row that holds the key of `write` is
    /// refreshed in place and keeps its identifier; otherwise `write` becomes
    /// a new row under the next identifier.
    pub open spec fn upsert(self, write: E) -> Self {
        if self.holds(write.key()) {
            let at = self.position(write.key());
            Table {
                rows: self.rows.update(
                    at,
                    Row { id: self.rows[at].id, entry: self.rows[at].entry.refreshed(write) },
                ),
                last_id: self.last_id,
            }
        } else {
            Table {
                rows: self.rows.push(Row { id: self.last_id + 1, entry: write }),
                last_id: self.last_id + 1,
            }
        }
    }

    /// The table after the writes of a batch, applied in their order.
    pub open spec fn upsert_all(self, writes: Seq<E>) -> Self
        decreases writes.len(),
    {
        if writes.len() == 0 {
            self
        } else {
            self.upsert_all(writes.drop_last()).upsert(writes.last())
        }
    }

    /// The identifiers of the rows observed at `mailbox` on `domain`, oldest
    /// first.
    pub open spec fn ids_in_mailbox(self, domain: u32, mailbox: Seq<u8>) -> Seq<int> {
        ids_in_mailbox(self.rows, domain, mailbox)
    }
}

/// The identifiers of those of `rows` that were observed at `mailbox` on
/// `domain`, in the order of `rows`.
pub open spec fn ids_in_mailbox<E: Entry>(rows: Seq<Row<E>>, domain: u32, mailbox: Seq<u8>) -> Seq<
    int,
>
    decreases rows.len(),
{
    if rows.len() == 0 {
        Seq::empty()
    } else {
        let rest = ids_in_mailbox(rows.drop_last(), domain, mailbox);
        if rows.last().entry.in_mailbox(domain, mailbox) {
            rest.push(rows.last().id)
        } else {
            rest
        }
    }
}

/// Whether one of `writes` has the key `key`.
pub open spec fn has_key<E: Entry>(writes: Seq<E>, key: E::Key) -> bool {
    exists|j: int| #![trigger writes[j]] 0 <= j < writes.len() && writes[j].key() == key
}

/// In a well-formed table a key is found at one position only.
pub proof fn lemma_position<E: Entry>(table: Table<E>, key: E::Key, at: int)
    requires
        table.wf(),
        0 <= at < table.rows.len(),
        table.rows[at].entry.key() == key,
    ensures
        table.holds(key),
        table.position(key) == at,
        table.row_of(key) == table.rows[at],
{
    let found = table.position(key);
    assert(0 <= found < table.rows.len() && table.rows[found].entry.key() == key);
    if found < at {
        assert(table.rows[found].entry.key() != table.rows[at].entry.key());
    } else if at < found {
        assert(table.rows[at].entry.key() != table.rows[found].entry.key());
    }
}

/// What one write does to a well-formed table.
pub proof fn lemma_upsert<E: Entry>(table: Table<E>, write: E)
    requires
        table.wf(),
    ensures
        table.upsert(write).wf(),
        table.upsert(write).holds(write.key()),
        table.upsert(write).row_of(write.key()).entry.reflects(write),
        table.holds(write.key()) ==> {
            &&& table.upsert(write).rows.len() == table.rows.len()
            &&& table.upsert(write).last_id == table.last_id
        },
        !table.holds(write.key()) ==> {
            &&& table.upsert(write).rows == table.rows.push(
                Row { id: table.last_id + 1, entry: write },
            )
            &&& table.upsert(write).last_id == table.last_id + 1
        },
        forall|i: int|
            #![trigger table.upsert(write).rows[i]]
            0 <= i < table.rows.len() ==> {
                &&& table.upsert(write).rows[i].id == table.rows[i].id
                &&& table.upsert(write).rows[i].entry.key() == table.rows[i].entry.key()
                &&& table.rows[i].entry.key() != write.key() ==> table.upsert(write).rows[i]
                    == table.rows[i]
                &&& forall|domain: u32, mailbox: Seq<u8>|
                    table.upsert(write).rows[i].entry.in_mailbox(domain, mailbox)
                        == table.rows[i].entry.in_mailbox(domain, mailbox)
            },
        forall|key: E::Key|
            #![trigger table.upsert(write).holds(key)]
            table.upsert(write).holds(key) <==> (table.holds(key) || key == write.key()),
{
    let after = table.upsert(write);
    if table.holds(write.key()) {
        let at = table.position(write.key());
        table.rows[at].entry.lemma_refreshed(write);
        assert forall|i: int, j: int|
            #![trigger after.rows[i], after.rows[j]]
            0 <= i < j < after.rows.len() implies after.rows[i].entry.key()
            != after.rows[j].entry.key() by {
            assert(table.rows[i].entry.key() != table.rows[j].entry.key());
        }
        assert forall|i: int, j: int|
            #![trigger after.rows[i], after.rows[j]]
            0 <= i < j < after.rows.len() implies after.rows[i].id < after.rows[j].id by {
            assert(table.rows[i].id < table.rows[j].id);
        }
        assert forall|i: int| 0 <= i < after.rows.len() implies 0 < (
        #[trigger] after.rows[i]).id <= after.last_id by {
            assert(0 < table.rows[i].id <= table.last_id);
        }
        assert(after.rows[at].entry.key() == write.key());
        lemma_position(after, write.key(), at);
        assert forall|key: E::Key| after.holds(key) <==> (table.holds(key) || key
            == write.key()) by {
            if after.holds(key) {
                let i = after.position(key);
                assert(table.rows[i].entry.key() == key);
            }
            if table.holds(key) {
                let i = table.position(key);
                assert(after.rows[i].entry.key() == key);
            }
        }
    } else {
        let at = table.rows.len() as int;
        assert forall|i: int, j: int|
            #![trigger after.rows[i], after.rows[j]]
            0 <= i < j < after.rows.len() implies after.rows[i].entry.key()
            != after.rows[j].entry.key() by {
            if j < at {
                assert(table.rows[i].entry.key() != table.rows[j].entry.key());
            } else {
                assert(table.rows[i].entry.key() != write.key());
            }
        }
        assert forall|i: int, j: int|
            #![trigger after.rows[i], after.rows[j]]
            0 <= i < j < after.rows.len() implies after.rows[i].id < after.rows[j].id by {
            if j < at {
                assert(table.rows[i].id < table.rows[j].id);
            } else {
                assert(0 < table.rows[i].id <= table.last_id);
            }
        }
        assert forall|i: int| 0 <= i < after.rows.len() implies 0 < (
        #[trigger] after.rows[i]).id <= after.last_id by {
            if i < at {
                assert(0 < table.rows[i].id <= table.last_id);
            }
        }
        assert(after.rows[at].entry.key() == write.key());
        lemma_position(after, write.key(), at);
        // A write that starts a row is what the row holds.
        let other = write;
        other.lemma_refreshed(write);
        assert forall|key: E::Key| after.holds(key) <==> (table.holds(key) || key
            == write.key()) by {
            if after.holds(key) {
                let i = after.position(key);
                if i < at {
                    assert(table.rows[i].entry.key() == key);
                }
            }
            if table.holds(key) {
                let i = table.position(key);
                assert(after.rows[i].entry.key() == key);
            }
        }
    }
}

/// What a batch of writes does to a well-formed table: the table stays
/// well-formed, the rows that were there keep their place, identifier, key
/// and mailbox, every new row has an identifier beyond those assigned
/// before, and the keys held are those held before and those of the batch.
pub proof fn lemma_upsert_all<E: Entry>(table: Table<E>, writes: Seq<E>)
    requires
        table.wf(),
    ensures
        table.upsert_all(writes).wf(),
        table.rows.len() <= table.upsert_all(writes).rows.len(),
        table.upsert_all(writes).last_id - table.last_id == table.upsert_all(writes).rows.len()
            - table.rows.len(),
        forall|i: int|
            #![trigger table.upsert_all(writes).rows[i]]
            0 <= i < table.rows.len() ==> {
                &&& table.upsert_all(writes).rows[i].id == table.rows[i].id
                &&& table.upsert_all(writes).rows[i].entry.key() == table.rows[i].entry.key()
                &&& forall|domain: u32, mailbox: Seq<u8>|
                    table.upsert_all(writes).rows[i].entry.in_mailbox(domain, mailbox)
                        == table.rows[i].entry.in_mailbox(domain, mailbox)
            },
        forall|i: int|
            #![trigger table.upsert_all(writes).rows[i]]
            table.rows.len() <= i < table.upsert_all(writes).rows.len() ==> table.last_id
                < table.upsert_all(writes).rows[i].id,
        forall|key: E::Key|
            #![trigger table.upsert_all(writes).holds(key)]
            #![trigger has_key(writes, key)]
            table.upsert_all(writes).holds(key) <==> (table.holds(key) || has_key(writes, key)),
    decreases writes.len(),
{
    let after = table.upsert_all(writes);
    if writes.len() == 0 {
    } else {
        let front = writes.drop_last();
        let middle = table.upsert_all(front);
        lemma_upsert_all(table, front);
        lemma_upsert(middle, writes.last());
        assert forall|i: int|
            #![trigger after.rows[i]]
            0 <= i < table.rows.len() implies {
            &&& after.rows[i].id == table.rows[i].id
            &&& after.rows[i].entry.key() == table.rows[i].entry.key()
            &&& forall|domain: u32, mailbox: Seq<u8>|
                after.rows[i].entry.in_mailbox(domain, mailbox) == table.rows[i].entry.in_mailbox(
                    domain,
                    mailbox,
                )
        } by {
            assert(middle.rows[i].id == table.rows[i].id);
        }
        assert forall|i: int|
            #![trigger after.rows[i]]
            table.rows.len() <= i < after.rows.len() implies table.last_id < after.rows[i].id by {
            if i < middle.rows.len() {
                assert(table.last_id < middle.rows[i].id);
            }
        }
        assert forall|key: E::Key|
            #![trigger after.holds(key)]
            #![trigger has_key(writes, key)]
            after.holds(key) <==> (table.holds(key) || has_key(writes, key)) by {
            assert(after.holds(key) <==> (middle.holds(key) || key == writes.last().key()));
            assert(middle.holds(key) <==> (table.holds(key) || has_key(front, key)));
            if has_key(front, key) {
                let j = choose|j: int|
                    #![trigger front[j]]
                    0 <= j < front.len() && front[j].key() == key;
                assert(writes[j].key() == key);
            }
            if key == writes.last().key() {
                assert(writes[writes.len() - 1].key() == key);
            }
            if has_key(writes, key) {
                let j = choose|j: int|
                    #![trigger writes[j]]
                    0 <= j < writes.len() && writes[j].key() == key;
                if j < front.len() {
                    assert(front[j].key() == key);
                } else {
                    assert(key == writes.last().key());
                }
            }
        }
    }
}

/// A batch may be applied in two parts.
pub proof fn lemma_upsert_all_split<E: Entry>(table: Table<E>, writes: Seq<E>, at: int)
    requires
        0 <= at <= writes.len(),
    ensures
        table.upsert_all(writes) == table.upsert_all(writes.take(at)).upsert_all(writes.skip(at)),
    decreases writes.len(),
{
    if at == writes.len() {
        assert(writes.take(at) =~= writes);
    } else {
        let front = writes.drop_last();
        lemma_upsert_all_split(table, front, at);
        assert(front.take(at) =~= writes.take(at));
        assert(writes.skip(at).drop_last() =~= front.skip(at));
    }
}

/// A part of a batch assigns no more identifiers than the whole batch.
pub proof fn lemma_upsert_all_prefix<E: Entry>(table: Table<E>, writes: Seq<E>, at: int)
    requires
        table.wf(),
        0 <= at <= writes.len(),
    ensures
        table.upsert_all(writes.take(at)).last_id <= table.upsert_all(writes).last_id,
        table.upsert_all(writes.take(at)).rows.len() <= table.upsert_all(writes).rows.len(),
{
    lemma_upsert_all_split(table, writes, at);
    lemma_upsert_all(table, writes.take(at));
    lemma_upsert_all(table.upsert_all(writes.take(at)), writes.skip(at));
}

/// A batch whose keys the table holds already adds no row and assigns no
/// identifier.
pub proof fn lemma_upsert_all_known<E: Entry>(table: Table<E>, writes: Seq<E>)
    requires
        table.wf(),
        forall|j: int| 0 <= j < writes.len() ==> table.holds(#[trigger] writes[j].key()),
    ensures
        table.upsert_all(writes).rows.len() == table.rows.len(),
        table.upsert_all(writes).last_id == table.last_id,
    decreases writes.len(),
{
    if writes.len() > 0 {
        let front = writes.drop_last();
        assert forall|j: int| 0 <= j < front.len() implies table.holds(
            #[trigger] front[j].key(),
        ) by {
            assert(front[j] == writes[j]);
        }
        lemma_upsert_all_known(table, front);
        lemma_upsert_all(table, front);
        let middle = table.upsert_all(front);
        assert(table.holds(writes[writes.len() - 1].key()));
        assert(middle.holds(writes.last().key()));
        lemma_upsert(middle, writes.last());
    }
}

/// The last write of a batch for a key decides what the row of that key
/// holds in the columns that a write refreshes.
pub proof fn lemma_latest_write_wins<E: Entry>(table: Table<E>, writes: Seq<E>, at: int)
    requires
        table.wf(),
        0 <= at < writes.len(),
        forall|k: int| at < k < writes.len() ==> (#[trigger] writes[k]).key() != writes[at].key(),
    ensures
        table.upsert_all(writes).holds(writes[at].key()),
        table.upsert_all(writes).row_of(writes[at].key()).entry.key() == writes[at].key(),
        table.upsert_all(writes).row_of(writes[at].key()).entry.reflects(writes[at]),
    decreases writes.len(),
{
    let front = writes.drop_last();
    let middle = table.upsert_all(front);
    let after = table.upsert_all(writes);
    let key = writes[at].key();
    lemma_upsert_all(table, front);
    lemma_upsert(middle, writes.last());
    if at == writes.len() - 1 {
        let found = after.position(key);
        assert(0 <= found < after.rows.len() && after.rows[found].entry.key() == key);
    } else {
        assert(front[at] == writes[at]);
        assert forall|k: int| at < k < front.len() implies (#[trigger] front[k]).key()
            != front[at].key() by {
            assert(front[k] == writes[k]);
        }
        lemma_latest_write_wins(table, front, at);
        let found = middle.position(key);
        assert(0 <= found < middle.rows.len() && middle.rows[found].entry.key() == key);
        assert(writes[writes.len() - 1].key() != key);
        assert(after.rows[found] == middle.rows[found]);
        lemma_position(after, key, found);
    }
}

/// Whether `row` has the key of one of `writes`, and was observed at
/// `mailbox` on `domain` just when that write was.
pub open spec fn written_by<E: Entry>(
    row: Row<E>,
    writes: Seq<E>,
    domain: u32,
    mailbox: Seq<u8>,
) -> bool {
    exists|j: int|
        #![trigger writes[j]]
        0 <= j < writes.len() && writes[j].key() == row.entry.key() && writes[j].in_mailbox(
            domain,
            mailbox,
        ) == row.entry.in_mailbox(domain, mailbox)
}

/// Every row that a batch adds was written by the batch.
pub proof fn lemma_new_rows<E: Entry>(
    table: Table<E>,
    writes: Seq<E>,
    domain: u32,
    mailbox: Seq<u8>,
)
    requires
        table.wf(),
    ensures
        forall|i: int|
            table.rows.len() <= i < table.upsert_all(writes).rows.len() ==> written_by(
                #[trigger] table.upsert_all(writes).rows[i],
                writes,
                domain,
                mailbox,
            ),
    decreases writes.len(),
{
    let after = table.upsert_all(writes);
    if writes.len() > 0 {
        let front = writes.drop_last();
        let middle = table.upsert_all(front);
        lemma_new_rows(table, front, domain, mailbox);
        lemma_upsert_all(table, front);
        lemma_upsert(middle, writes.last());
        assert forall|i: int| table.rows.len() <= i < after.rows.len() implies written_by(
            #[trigger] after.rows[i],
            writes,
            domain,
            mailbox,
        ) by {
            if i < middle.rows.len() {
                assert(written_by(middle.rows[i], front, domain, mailbox));
                let j = choose|j: int|
                    #![trigger front[j]]
                    0 <= j < front.len() && front[j].key() == middle.rows[i].entry.key()
                        && front[j].in_mailbox(domain, mailbox) == middle.rows[i].entry.in_mailbox(
                        domain,
                        mailbox,
                    );
                assert(writes[j] == front[j]);
                assert(after.rows[i].entry.key() == middle.rows[i].entry.key());
                assert(after.rows[i].entry.in_mailbox(domain, mailbox)
                    == middle.rows[i].entry.in_mailbox(domain, mailbox));
            } else {
                assert(after.rows[i].entry == writes[writes.len() - 1]);
            }
        }
    }
}

/// A row whose key no write of a batch has is after the batch what it was
/// before: nothing is deleted, and nothing is changed but by its key.
pub proof fn lemma_untouched_row<E: Entry>(table: Table<E>, writes: Seq<E>, at: int)
    requires
        table.wf(),
        0 <= at < table.rows.len(),
        !has_key(writes, table.rows[at].entry.key()),
    ensures
        at < table.upsert_all(writes).rows.len(),
        table.upsert_all(writes).rows[at] == table.rows[at],
    decreases writes.len(),
{
    if writes.len() > 0 {
        let front = writes.drop_last();
        let middle = table.upsert_all(front);
        let key = table.rows[at].entry.key();
        if has_key(front, key) {
            let j = choose|j: int| #![trigger front[j]] 0 <= j < front.len() && front[j].key() == key;
            assert(writes[j].key() == key);
        }
        assert(writes[writes.len() - 1].key() != key);
        lemma_untouched_row(table, front, at);
        lemma_upsert_all(table, front);
        lemma_upsert(middle, writes.last());
        assert(table.upsert_all(writes).rows[at] == middle.rows[at]);
    }
}

/// A well-formed table has no more rows than it has assigned identifiers.
pub proof fn lemma_rows_bound<E: Entry>(table: Table<E>)
    requires
        table.wf(),
    ensures
        table.rows.len() <= table.last_id,
        forall|i: int| 0 <= i < table.rows.len() ==> i < (#[trigger] table.rows[i]).id,
    decreases table.rows.len(),
{
    if table.rows.len() > 0 {
        let front = Table { rows: table.rows.drop_last(), last_id: table.last_id };
        assert forall|i: int, j: int|
            #![trigger front.rows[i], front.rows[j]]
            0 <= i < j < front.rows.len() implies front.rows[i].id < front.rows[j].id
            && front.rows[i].entry.key() != front.rows[j].entry.key() by {
            assert(table.rows[i].id < table.rows[j].id);
        }
        assert forall|i: int| 0 <= i < front.rows.len() implies 0 < (#[trigger] front.rows[i]).id
            <= front.last_id by {
            assert(0 < table.rows[i].id <= table.last_id);
        }
        lemma_rows_bound(front);
        let last = table.rows.len() - 1;
        assert(0 < table.rows[last].id <= table.last_id);
        if last > 0 {
            assert(front.rows[last - 1] == table.rows[last - 1]);
            assert(table.rows[last - 1].id < table.rows[last].id);
        }
        assert forall|i: int| 0 <= i < table.rows.len() implies i < (#[trigger] table.rows[i]).id by {
            if i < last {
                assert(front.rows[i] == table.rows[i]);
            }
        }
    }
}

} // verus!
