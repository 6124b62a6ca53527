//! Counting what a batch added, for a store whose write does not say which
//! rows it inserted: the greatest identifier is taken before the write as a
//! baseline, and the identifiers beyond it are counted after the write.

use crate::error::StoreError;
use crate::table::{
    has_key, ids_in_mailbox, lemma_new_rows, lemma_upsert_all, lemma_upsert_all_known, written_by,
    Entry, Row, Table,
};
use vstd::prelude::*;

verus! {

/// The greatest of `values`, if there is any.
pub open spec fn greatest(values: Seq<int>) -> Option<int>
    decreases values.len(),
{
    if values.len() == 0 {
        None
    } else {
        match greatest(values.drop_last()) {
            Some(best) if best >= values.last() => Some(best),
            _ => Some(values.last()),
        }
    }
}

/// The baseline that a queried maximum stands for: the maximum itself, or 0
/// where no row was there to have one.
pub open spec fn baseline_of(latest: Option<int>) -> int {
    match latest {
        Some(id) => id,
        None => 0,
    }
}

/// How many of `values` lie beyond `bound`.
pub open spec fn count_above(values: Seq<int>, bound: int) -> nat
    decreases values.len(),
{
    if values.len() == 0 {
        0
    } else if values.last() > bound {
        count_above(values.drop_last(), bound) + 1
    } else {
        count_above(values.drop_last(), bound)
    }
}

/// The same numbers as mathematical integers.
pub open spec fn as_ints(values: Seq<i64>) -> Seq<int> {
    Seq::new(values.len(), |i: int| values[i] as int)
}

impl<E: Entry> Table<E> {
    /// The greatest identifier among the rows observed at `mailbox` on
    /// `domain`, if there is such a row.
    pub open spec fn latest_id(self, domain: u32, mailbox: Seq<u8>) -> Option<int> {
        greatest(self.ids_in_mailbox(domain, mailbox))
    }

    /// The baseline for `mailbox` on `domain`: the greatest identifier among
    /// its rows, or 0 where it has none.
    pub open spec fn baseline(self, domain: u32, mailbox: Seq<u8>) -> int {
        baseline_of(self.latest_id(domain, mailbox))
    }

    /// How many rows observed at `mailbox` on `domain` have an identifier
    /// beyond `baseline`.
    pub open spec fn count_since(self, domain: u32, mailbox: Seq<u8>, baseline: int) -> nat {
        count_above(self.ids_in_mailbox(domain, mailbox), baseline)
    }
}

/// `greatest` is `None` for no values only, and otherwise one of the values
/// that none of them exceeds.
pub proof fn lemma_greatest(values: Seq<int>)
    ensures
        greatest(values) is None <==> values.len() == 0,
        greatest(values) matches Some(best) ==> {
            &&& exists|i: int| 0 <= i < values.len() && values[i] == best
            &&& forall|i: int| 0 <= i < values.len() ==> values[i] <= best
        },
    decreases values.len(),
{
    if values.len() > 0 {
        let front = values.drop_last();
        lemma_greatest(front);
        let best = greatest(values).unwrap();
        if best == values.last() {
            assert(values[values.len() - 1] == best);
        } else {
            let i = choose|i: int| 0 <= i < front.len() && front[i] == best;
            assert(values[i] == best);
        }
        assert forall|i: int| 0 <= i < values.len() implies values[i] <= best by {
            if i < front.len() {
                assert(front[i] <= best);
            }
        }
    }
}

/// `count_above` counts no more than there are values, counts nothing just
/// when no value lies beyond the bound, and counts everything just when all do.
pub proof fn lemma_count_above(values: Seq<int>, bound: int)
    ensures
        count_above(values, bound) <= values.len(),
        count_above(values, bound) == 0 <==> forall|i: int|
            0 <= i < values.len() ==> values[i] <= bound,
        count_above(values, bound) == values.len() <==> forall|i: int|
            0 <= i < values.len() ==> values[i] > bound,
    decreases values.len(),
{
    if values.len() > 0 {
        let front = values.drop_last();
        lemma_count_above(front, bound);
        if count_above(values, bound) == 0 {
            assert forall|i: int| 0 <= i < values.len() implies values[i] <= bound by {
                if i < front.len() {
                    assert(front[i] <= bound);
                }
            }
        }
        if forall|i: int| 0 <= i < values.len() ==> values[i] <= bound {
            assert(values[values.len() - 1] <= bound);
            assert forall|i: int| 0 <= i < front.len() implies front[i] <= bound by {
                assert(values[i] <= bound);
            }
        }
        if count_above(values, bound) == values.len() {
            assert forall|i: int| 0 <= i < values.len() implies values[i] > bound by {
                if i < front.len() {
                    assert(front[i] > bound);
                }
            }
        }
        if forall|i: int| 0 <= i < values.len() ==> values[i] > bound {
            assert(values[values.len() - 1] > bound);
            assert forall|i: int| 0 <= i < front.len() implies front[i] > bound by {
                assert(values[i] > bound);
            }
        }
    }
}

/// Nothing lies beyond the baseline of the values themselves.
pub proof fn lemma_nothing_above_baseline(values: Seq<int>)
    ensures
        count_above(values, baseline_of(greatest(values))) == 0,
{
    lemma_greatest(values);
    lemma_count_above(values, baseline_of(greatest(values)));
}

/// Whether `id` is the identifier of one of `rows` that was observed at
/// `mailbox` on `domain`.
pub open spec fn is_id_in_mailbox<E: Entry>(
    rows: Seq<Row<E>>,
    domain: u32,
    mailbox: Seq<u8>,
    id: int,
) -> bool {
    exists|i: int|
        #![trigger rows[i]]
        0 <= i < rows.len() && rows[i].entry.in_mailbox(domain, mailbox) && rows[i].id == id
}

/// The identifiers of a mailbox are those of its rows: each stands at some
/// row observed there, and each such row has its identifier among them.
pub proof fn lemma_ids_in_mailbox<E: Entry>(rows: Seq<Row<E>>, domain: u32, mailbox: Seq<u8>)
    ensures
        ids_in_mailbox(rows, domain, mailbox).len() <= rows.len(),
        forall|k: int|
            0 <= k < ids_in_mailbox(rows, domain, mailbox).len() ==> is_id_in_mailbox(
                rows,
                domain,
                mailbox,
                #[trigger] ids_in_mailbox(rows, domain, mailbox)[k],
            ),
        forall|i: int|
            #![trigger rows[i]]
            0 <= i < rows.len() && rows[i].entry.in_mailbox(domain, mailbox) ==> ids_in_mailbox(
                rows,
                domain,
                mailbox,
            ).contains(rows[i].id),
    decreases rows.len(),
{
    let ids = ids_in_mailbox(rows, domain, mailbox);
    if rows.len() > 0 {
        let front = rows.drop_last();
        let front_ids = ids_in_mailbox(front, domain, mailbox);
        lemma_ids_in_mailbox(front, domain, mailbox);
        let last = rows.len() - 1;
        assert forall|k: int| 0 <= k < ids.len() implies is_id_in_mailbox(
            rows,
            domain,
            mailbox,
            #[trigger] ids[k],
        ) by {
            if k < front_ids.len() {
                assert(is_id_in_mailbox(front, domain, mailbox, front_ids[k]));
                let i = choose|i: int|
                    #![trigger front[i]]
                    0 <= i < front.len() && front[i].entry.in_mailbox(domain, mailbox)
                        && front[i].id == front_ids[k];
                assert(rows[i] == front[i]);
            } else {
                assert(rows[last].id == ids[k]);
            }
        }
        assert forall|i: int|
            #![trigger rows[i]]
            0 <= i < rows.len() && rows[i].entry.in_mailbox(domain, mailbox) implies ids.contains(
            rows[i].id,
        ) by {
            if i < front.len() {
                assert(front[i].entry.in_mailbox(domain, mailbox));
                let k = choose|k: int| 0 <= k < front_ids.len() && front_ids[k] == front[i].id;
                assert(ids[k] == rows[i].id);
            } else {
                assert(ids[ids.len() - 1] == rows[i].id);
            }
        }
    }
}

/// Rows that agree, place by place, in their identifiers and in whether
/// they were observed at the mailbox have the same identifiers there.
pub proof fn lemma_same_ids<E: Entry>(
    left: Seq<Row<E>>,
    right: Seq<Row<E>>,
    domain: u32,
    mailbox: Seq<u8>,
)
    requires
        left.len() == right.len(),
        forall|i: int|
            #![trigger left[i]]
            #![trigger right[i]]
            0 <= i < left.len() ==> left[i].id == right[i].id && left[i].entry.in_mailbox(
                domain,
                mailbox,
            ) == right[i].entry.in_mailbox(domain, mailbox),
    ensures
        ids_in_mailbox(left, domain, mailbox) == ids_in_mailbox(right, domain, mailbox),
    decreases left.len(),
{
    if left.len() > 0 {
        let last = left.len() - 1;
        assert(left[last].id == right[last].id);
        assert forall|i: int|
            #![trigger left.drop_last()[i]]
            #![trigger right.drop_last()[i]]
            0 <= i < left.drop_last().len() implies left.drop_last()[i].id
            == right.drop_last()[i].id && left.drop_last()[i].entry.in_mailbox(domain, mailbox)
            == right.drop_last()[i].entry.in_mailbox(domain, mailbox) by {
            assert(left[i].id == right[i].id);
        }
        lemma_same_ids(left.drop_last(), right.drop_last(), domain, mailbox);
    }
}

/// The identifiers of a mailbox in two runs of rows, one after the other.
pub proof fn lemma_ids_concat<E: Entry>(
    left: Seq<Row<E>>,
    right: Seq<Row<E>>,
    domain: u32,
    mailbox: Seq<u8>,
)
    ensures
        ids_in_mailbox(left + right, domain, mailbox) == ids_in_mailbox(left, domain, mailbox)
            + ids_in_mailbox(right, domain, mailbox),
    decreases right.len(),
{
    if right.len() == 0 {
        assert(left + right =~= left);
        assert(ids_in_mailbox(left, domain, mailbox) + ids_in_mailbox(right, domain, mailbox)
            =~= ids_in_mailbox(left, domain, mailbox));
    } else {
        lemma_ids_concat(left, right.drop_last(), domain, mailbox);
        assert((left + right).drop_last() =~= left + right.drop_last());
        assert((left + right).last() == right.last());
        let most = ids_in_mailbox(left, domain, mailbox) + ids_in_mailbox(
            right.drop_last(),
            domain,
            mailbox,
        );
        if right.last().entry.in_mailbox(domain, mailbox) {
            assert(most.push(right.last().id) =~= ids_in_mailbox(left, domain, mailbox)
                + ids_in_mailbox(right, domain, mailbox));
        }
    }
}

/// What lies beyond a bound in two runs of values, one after the other.
pub proof fn lemma_count_above_concat(left: Seq<int>, right: Seq<int>, bound: int)
    ensures
        count_above(left + right, bound) == count_above(left, bound) + count_above(right, bound),
    decreases right.len(),
{
    if right.len() == 0 {
        assert(left + right =~= left);
    } else {
        lemma_count_above_concat(left, right.drop_last(), bound);
        assert((left + right).drop_last() =~= left + right.drop_last());
        assert((left + right).last() == right.last());
    }
}

/// The baseline of a well-formed table does not pass the last identifier
/// that the table assigned.
pub proof fn lemma_baseline_bounds<E: Entry>(table: Table<E>, domain: u32, mailbox: Seq<u8>)
    requires
        table.wf(),
    ensures
        0 <= table.baseline(domain, mailbox) <= table.last_id,
{
    let ids = table.ids_in_mailbox(domain, mailbox);
    lemma_greatest(ids);
    lemma_ids_in_mailbox(table.rows, domain, mailbox);
    if greatest(ids) is Some {
        let best = greatest(ids).unwrap();
        let k = choose|k: int| 0 <= k < ids.len() && ids[k] == best;
        assert(is_id_in_mailbox(table.rows, domain, mailbox, ids[k]));
        let i = choose|i: int|
            #![trigger table.rows[i]]
            0 <= i < table.rows.len() && table.rows[i].entry.in_mailbox(domain, mailbox)
                && table.rows[i].id == ids[k];
        assert(0 < table.rows[i].id <= table.last_id);
    }
}

/// What is counted after a batch, beyond the baseline taken before it, is
/// the rows of the mailbox that the batch added.
pub proof fn lemma_count_is_new_rows<E: Entry>(
    table: Table<E>,
    writes: Seq<E>,
    domain: u32,
    mailbox: Seq<u8>,
)
    requires
        table.wf(),
    ensures
        table.upsert_all(writes).count_since(domain, mailbox, table.baseline(domain, mailbox))
            == ids_in_mailbox(
            table.upsert_all(writes).rows.skip(table.rows.len() as int),
            domain,
            mailbox,
        ).len(),
{
    let after = table.upsert_all(writes);
    let kept = after.rows.take(table.rows.len() as int);
    let added = after.rows.skip(table.rows.len() as int);
    let baseline = table.baseline(domain, mailbox);
    lemma_upsert_all(table, writes);
    assert(after.rows =~= kept + added);
    lemma_ids_concat(kept, added, domain, mailbox);
    assert forall|i: int|
        #![trigger kept[i]]
        #![trigger table.rows[i]]
        0 <= i < kept.len() implies kept[i].id == table.rows[i].id && kept[i].entry.in_mailbox(
        domain,
        mailbox,
    ) == table.rows[i].entry.in_mailbox(domain, mailbox) by {
        assert(kept[i] == after.rows[i]);
    }
    lemma_same_ids(kept, table.rows, domain, mailbox);
    let kept_ids = ids_in_mailbox(kept, domain, mailbox);
    let added_ids = ids_in_mailbox(added, domain, mailbox);
    lemma_count_above_concat(kept_ids, added_ids, baseline);
    lemma_nothing_above_baseline(kept_ids);
    lemma_baseline_bounds(table, domain, mailbox);
    lemma_ids_in_mailbox(added, domain, mailbox);
    assert forall|k: int| 0 <= k < added_ids.len() implies added_ids[k] > baseline by {
        assert(is_id_in_mailbox(added, domain, mailbox, added_ids[k]));
        let i = choose|i: int|
            #![trigger added[i]]
            0 <= i < added.len() && added[i].entry.in_mailbox(domain, mailbox) && added[i].id
                == added_ids[k];
        assert(added[i] == after.rows[table.rows.len() + i]);
    }
    lemma_count_above(added_ids, baseline);
}

/// A batch that is stored again at once, or any batch whose keys were all
/// in the batch just stored, adds no row, and the count that follows it is 0.
pub proof fn lemma_repeat_counts_nothing<E: Entry>(
    table: Table<E>,
    writes: Seq<E>,
    again: Seq<E>,
    domain: u32,
    mailbox: Seq<u8>,
)
    requires
        table.wf(),
        forall|j: int| 0 <= j < again.len() ==> has_key(writes, #[trigger] again[j].key()),
    ensures
        table.upsert_all(writes).upsert_all(again).rows.len() == table.upsert_all(
            writes,
        ).rows.len(),
        table.upsert_all(writes).upsert_all(again).last_id == table.upsert_all(writes).last_id,
        table.upsert_all(writes).upsert_all(again).count_since(
            domain,
            mailbox,
            table.upsert_all(writes).baseline(domain, mailbox),
        ) == 0,
{
    let once = table.upsert_all(writes);
    let twice = once.upsert_all(again);
    lemma_upsert_all(table, writes);
    assert forall|j: int| 0 <= j < again.len() implies once.holds(#[trigger] again[j].key()) by {
        assert(has_key(writes, again[j].key()));
    }
    lemma_upsert_all_known(once, again);
    lemma_count_is_new_rows(once, again, domain, mailbox);
    assert(twice.rows.skip(once.rows.len() as int) =~= Seq::empty());
}

/// Whether the writes of a batch that share a key agree on whether they
/// were observed at `mailbox` on `domain`.
pub open spec fn agree_on_mailbox<E: Entry>(writes: Seq<E>, domain: u32, mailbox: Seq<u8>) -> bool {
    forall|i: int, j: int|
        #![trigger writes[i], writes[j]]
        0 <= i < writes.len() && 0 <= j < writes.len() && writes[i].key() == writes[j].key()
            ==> writes[i].in_mailbox(domain, mailbox) == writes[j].in_mailbox(domain, mailbox)
}

/// Whether one of `writes` was observed at `mailbox` on `domain` and has a
/// key that `table` does not hold.
pub open spec fn brings_new_row<E: Entry>(
    table: Table<E>,
    writes: Seq<E>,
    domain: u32,
    mailbox: Seq<u8>,
) -> bool {
    exists|j: int|
        #![trigger writes[j]]
        0 <= j < writes.len() && writes[j].in_mailbox(domain, mailbox) && !table.holds(
            writes[j].key(),
        )
}

/// The count after a batch is more than 0 just when the batch brings a row
/// to the mailbox that the table did not hold.
pub proof fn lemma_count_positive<E: Entry>(
    table: Table<E>,
    writes: Seq<E>,
    domain: u32,
    mailbox: Seq<u8>,
)
    requires
        table.wf(),
        agree_on_mailbox(writes, domain, mailbox),
    ensures
        table.upsert_all(writes).count_since(domain, mailbox, table.baseline(domain, mailbox)) > 0
            <==> brings_new_row(table, writes, domain, mailbox),
{
    let after = table.upsert_all(writes);
    let old_len = table.rows.len() as int;
    let added = after.rows.skip(old_len);
    let added_ids = ids_in_mailbox(added, domain, mailbox);
    lemma_count_is_new_rows(table, writes, domain, mailbox);
    lemma_upsert_all(table, writes);
    lemma_new_rows(table, writes, domain, mailbox);
    lemma_ids_in_mailbox(added, domain, mailbox);
    if added_ids.len() > 0 {
        assert(is_id_in_mailbox(added, domain, mailbox, added_ids[0]));
        let i = choose|i: int|
            #![trigger added[i]]
            0 <= i < added.len() && added[i].entry.in_mailbox(domain, mailbox) && added[i].id
                == added_ids[0];
        let row = after.rows[old_len + i];
        assert(added[i] == row);
        assert(written_by(row, writes, domain, mailbox));
        let j = choose|j: int|
            #![trigger writes[j]]
            0 <= j < writes.len() && writes[j].key() == row.entry.key() && writes[j].in_mailbox(
                domain,
                mailbox,
            ) == row.entry.in_mailbox(domain, mailbox);
        if table.holds(writes[j].key()) {
            let at = table.position(writes[j].key());
            assert(0 <= at < old_len && table.rows[at].entry.key() == writes[j].key());
            assert(after.rows[at].entry.key() == table.rows[at].entry.key());
            assert(after.rows[at].entry.key() != after.rows[old_len + i].entry.key());
        }
        assert(writes[j].in_mailbox(domain, mailbox) && !table.holds(writes[j].key()));
    }
    if brings_new_row(table, writes, domain, mailbox) {
        let j = choose|j: int|
            #![trigger writes[j]]
            0 <= j < writes.len() && writes[j].in_mailbox(domain, mailbox) && !table.holds(
                writes[j].key(),
            );
        let key = writes[j].key();
        assert(has_key(writes, key));
        assert(after.holds(key));
        let at = after.position(key);
        assert(0 <= at < after.rows.len() && after.rows[at].entry.key() == key);
        if at < old_len {
            assert(after.rows[at].entry.key() == table.rows[at].entry.key());
            assert(table.rows[at].entry.key() == key);
        }
        assert(written_by(after.rows[at], writes, domain, mailbox));
        let other = choose|k: int|
            #![trigger writes[k]]
            0 <= k < writes.len() && writes[k].key() == after.rows[at].entry.key()
                && writes[k].in_mailbox(domain, mailbox) == after.rows[at].entry.in_mailbox(
                domain,
                mailbox,
            );
        assert(writes[other].in_mailbox(domain, mailbox) == writes[j].in_mailbox(domain, mailbox));
        assert(added[at - old_len] == after.rows[at]);
        assert(added_ids.contains(added[at - old_len].id));
    }
}

/// The greatest of `ids`, as a query for the maximum of a column answers:
/// nothing where there is no row.
pub fn latest_id(ids: &Vec<i64>) -> (latest: Option<i64>)
    ensures
        latest is None <==> greatest(as_ints(ids@)) is None,
        latest matches Some(id) ==> greatest(as_ints(ids@)) == Some(id as int),
{
    let mut latest: Option<i64> = None;
    let mut i: usize = 0;
    while i < ids.len()
        invariant
            i <= ids@.len(),
            latest is None <==> greatest(as_ints(ids@.take(i as int))) is None,
            latest matches Some(id) ==> greatest(as_ints(ids@.take(i as int))) == Some(id as int),
        decreases ids@.len() - i,
    {
        let id: i64 = ids[i];
        assert(as_ints(ids@.take(i + 1)).drop_last() =~= as_ints(ids@.take(i as int)));
        latest =
        match latest {
            Some(best) if best >= id => Some(best),
            _ => Some(id),
        };
        i += 1;
    }
    assert(ids@.take(ids@.len() as int) =~= ids@);
    latest
}

/// The baseline that the answer to a query for the greatest identifier
/// gives. An answer that holds no row at all means that the query went
/// wrong; a row that holds no maximum means that nothing matched, and the
/// baseline is 0.
pub fn baseline_from_query(answer: Option<Option<i64>>) -> (baseline: Result<i64, StoreError>)
    ensures
        baseline == (match answer {
            None => Err::<i64, StoreError>(StoreError::Query),
            Some(None) => Ok(0i64),
            Some(Some(id)) => Ok(id),
        }),
        answer matches Some(latest) ==> baseline is Ok && baseline.unwrap() as int == baseline_of(
            match latest {
                Some(id) => Some(id as int),
                None => None,
            },
        ),
{
    match answer {
        None => Err(StoreError::Query),
        Some(None) => Ok(0),
        Some(Some(id)) => Ok(id),
    }
}

/// How many of `ids` lie beyond `prev_id`.
pub fn count_since(ids: &Vec<i64>, prev_id: i64) -> (count: u64)
    ensures
        count == count_above(as_ints(ids@), prev_id as int),
{
    let mut count: u64 = 0;
    let mut i: usize = 0;
    while i < ids.len()
        invariant
            i <= ids@.len(),
            count <= i,
            count == count_above(as_ints(ids@.take(i as int)), prev_id as int),
        decreases ids@.len() - i,
    {
        assert(as_ints(ids@.take(i + 1)).drop_last() =~= as_ints(ids@.take(i as int)));
        if ids[i] > prev_id {
            count += 1;
        }
        i += 1;
    }
    assert(ids@.take(ids@.len() as int) =~= ids@);
    count
}

} // verus!
