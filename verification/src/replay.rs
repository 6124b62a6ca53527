//! What holds of the store when events are observed again: a batch that is
//! stored twice is counted once, the last write for a key is what its row
//! holds, and what was stored is what is read back.

use crate::db::{delivery_writes, dispatch_writes, is_highest_nonce};
use crate::message::{MessageView, StorableDelivery, StorableMessage, PROTOCOL_VERSION};
use crate::primitives::{spec_address_to_bytes, H256};
use crate::rows::{lemma_message_round_trip, DeliveryEntry, MessageEntry};
use crate::table::{
    has_key, lemma_latest_write_wins, lemma_new_rows, lemma_upsert_all, written_by, Entry, Table,
};
use crate::watermark::{
    agree_on_mailbox, brings_new_row, lemma_count_positive, lemma_repeat_counts_nothing,
};
use vstd::prelude::*;

verus! {

/// Whether a batch holds a message that was dispatched on `domain` under a
/// nonce that the table does not hold for the mailbox.
pub open spec fn has_new_dispatch(
    before: Table<MessageEntry>,
    domain: u32,
    mailbox: Seq<u8>,
    batch: Seq<StorableMessage<'_>>,
) -> bool {
    exists|j: int|
        #![trigger batch[j]]
        0 <= j < batch.len() && batch[j].msg.origin == domain && !before.holds(
            (mailbox, batch[j].msg.origin, batch[j].msg.nonce),
        )
}

/// Whether a batch holds the delivery of a message of which the table holds
/// no delivery.
pub open spec fn has_new_delivery(
    before: Table<DeliveryEntry>,
    batch: Seq<StorableDelivery<'_>>,
) -> bool {
    exists|j: int|
        #![trigger batch[j]]
        0 <= j < batch.len() && !before.holds(batch[j].message_id@)
}

/// The count that follows a batch of dispatched messages is more than 0
/// just when the batch holds a message of the domain that was not stored
/// for the mailbox before.
pub proof fn lemma_dispatch_count_positive(
    before: Table<MessageEntry>,
    domain: u32,
    origin_mailbox: H256,
    batch: Seq<StorableMessage<'_>>,
    time_created: u64,
)
    requires
        before.wf(),
    ensures
        ({
            let mailbox = spec_address_to_bytes(origin_mailbox@);
            let after = before.upsert_all(dispatch_writes(mailbox, batch, time_created));
            after.count_since(domain, mailbox, before.baseline(domain, mailbox)) > 0
                <==> has_new_dispatch(before, domain, mailbox, batch)
        }),
{
    let mailbox = spec_address_to_bytes(origin_mailbox@);
    let writes = dispatch_writes(mailbox, batch, time_created);
    assert(agree_on_mailbox(writes, domain, mailbox));
    lemma_count_positive(before, writes, domain, mailbox);
    if has_new_dispatch(before, domain, mailbox, batch) {
        let j = choose|j: int|
            #![trigger batch[j]]
            0 <= j < batch.len() && batch[j].msg.origin == domain && !before.holds(
                (mailbox, batch[j].msg.origin, batch[j].msg.nonce),
            );
        assert(writes[j].in_mailbox(domain, mailbox) && !before.holds(writes[j].key()));
    }
    if brings_new_row(before, writes, domain, mailbox) {
        let j = choose|j: int|
            #![trigger writes[j]]
            0 <= j < writes.len() && writes[j].in_mailbox(domain, mailbox) && !before.holds(
                writes[j].key(),
            );
        assert(batch[j].msg.origin == domain && !before.holds(
            (mailbox, batch[j].msg.origin, batch[j].msg.nonce),
        ));
    }
}

/// A batch of dispatched messages that is stored twice running is counted
/// the first time and not the second: the first count is more than 0 where
/// the batch holds a message of the domain that was not stored before, and
/// the second count is 0 and no identifier is spent on it. The second batch
/// names the same messages by origin and nonce; what else it says of them
/// does not matter to the count.
pub proof fn lemma_dispatch_repeat(
    before: Table<MessageEntry>,
    domain: u32,
    origin_mailbox: H256,
    batch: Seq<StorableMessage<'_>>,
    again: Seq<StorableMessage<'_>>,
    first_time: u64,
    second_time: u64,
)
    requires
        before.wf(),
        has_new_dispatch(before, domain, spec_address_to_bytes(origin_mailbox@), batch),
        again.len() == batch.len(),
        forall|j: int|
            0 <= j < batch.len() ==> (#[trigger] again[j]).msg.origin == batch[j].msg.origin
                && again[j].msg.nonce == batch[j].msg.nonce,
    ensures
        ({
            let mailbox = spec_address_to_bytes(origin_mailbox@);
            let once = before.upsert_all(dispatch_writes(mailbox, batch, first_time));
            let twice = once.upsert_all(dispatch_writes(mailbox, again, second_time));
            &&& once.count_since(domain, mailbox, before.baseline(domain, mailbox)) > 0
            &&& twice.count_since(domain, mailbox, once.baseline(domain, mailbox)) == 0
            &&& twice.rows.len() == once.rows.len()
            &&& twice.last_id == once.last_id
        }),
{
    let mailbox = spec_address_to_bytes(origin_mailbox@);
    let writes = dispatch_writes(mailbox, batch, first_time);
    let rewrites = dispatch_writes(mailbox, again, second_time);
    lemma_dispatch_count_positive(before, domain, origin_mailbox, batch, first_time);
    assert forall|j: int| 0 <= j < rewrites.len() implies has_key(
        writes,
        #[trigger] rewrites[j].key(),
    ) by {
        assert(again[j].msg.origin == batch[j].msg.origin);
        assert(writes[j].key() == rewrites[j].key());
    }
    lemma_repeat_counts_nothing(before, writes, rewrites, domain, mailbox);
}

/// The count that follows a batch of deliveries is more than 0 just when
/// the batch holds the delivery of a message of which none was stored before.
pub proof fn lemma_deliveries_count_positive(
    before: Table<DeliveryEntry>,
    domain: u32,
    destination_mailbox: H256,
    batch: Seq<StorableDelivery<'_>>,
    time_created: u64,
)
    requires
        before.wf(),
    ensures
        ({
            let mailbox = spec_address_to_bytes(destination_mailbox@);
            let after = before.upsert_all(delivery_writes(domain, mailbox, batch, time_created));
            after.count_since(domain, mailbox, before.baseline(domain, mailbox)) > 0
                <==> has_new_delivery(before, batch)
        }),
{
    let mailbox = spec_address_to_bytes(destination_mailbox@);
    let writes = delivery_writes(domain, mailbox, batch, time_created);
    assert(agree_on_mailbox(writes, domain, mailbox));
    lemma_count_positive(before, writes, domain, mailbox);
    if has_new_delivery(before, batch) {
        let j = choose|j: int|
            #![trigger batch[j]]
            0 <= j < batch.len() && !before.holds(batch[j].message_id@);
        assert(writes[j].in_mailbox(domain, mailbox) && !before.holds(writes[j].key()));
    }
    if brings_new_row(before, writes, domain, mailbox) {
        let j = choose|j: int|
            #![trigger writes[j]]
            0 <= j < writes.len() && writes[j].in_mailbox(domain, mailbox) && !before.holds(
                writes[j].key(),
            );
        assert(!before.holds(batch[j].message_id@));
    }
}

/// A batch of deliveries that is stored twice running is counted the first
/// time and not the second, as a batch of dispatched messages is. The second
/// batch may name other transactions for the same messages.
pub proof fn lemma_deliveries_repeat(
    before: Table<DeliveryEntry>,
    domain: u32,
    destination_mailbox: H256,
    batch: Seq<StorableDelivery<'_>>,
    again: Seq<StorableDelivery<'_>>,
    first_time: u64,
    second_time: u64,
)
    requires
        before.wf(),
        has_new_delivery(before, batch),
        again.len() == batch.len(),
        forall|j: int|
            0 <= j < batch.len() ==> (#[trigger] again[j]).message_id@ == batch[j].message_id@,
    ensures
        ({
            let mailbox = spec_address_to_bytes(destination_mailbox@);
            let once = before.upsert_all(delivery_writes(domain, mailbox, batch, first_time));
            let twice = once.upsert_all(delivery_writes(domain, mailbox, again, second_time));
            &&& once.count_since(domain, mailbox, before.baseline(domain, mailbox)) > 0
            &&& twice.count_since(domain, mailbox, once.baseline(domain, mailbox)) == 0
            &&& twice.rows.len() == once.rows.len()
            &&& twice.last_id == once.last_id
        }),
{
    let mailbox = spec_address_to_bytes(destination_mailbox@);
    let writes = delivery_writes(domain, mailbox, batch, first_time);
    let rewrites = delivery_writes(domain, mailbox, again, second_time);
    lemma_deliveries_count_positive(before, domain, destination_mailbox, batch, first_time);
    assert forall|j: int| 0 <= j < rewrites.len() implies has_key(
        writes,
        #[trigger] rewrites[j].key(),
    ) by {
        assert(again[j].message_id@ == batch[j].message_id@);
        assert(writes[j].key() == rewrites[j].key());
    }
    lemma_repeat_counts_nothing(before, writes, rewrites, domain, mailbox);
}

/// Of the messages of a batch that share origin and nonce, the last is the
/// one that the store holds afterwards, in one row: reading it back gives
/// its fields, with the current version, and the row names its transaction.
pub proof fn lemma_latest_dispatch_is_read_back(
    before: Table<MessageEntry>,
    origin_mailbox: H256,
    batch: Seq<StorableMessage<'_>>,
    time_created: u64,
    at: int,
)
    requires
        before.wf(),
        0 <= at < batch.len(),
        forall|k: int|
            at < k < batch.len() ==> !((#[trigger] batch[k]).msg.origin == batch[at].msg.origin
                && batch[k].msg.nonce == batch[at].msg.nonce),
    ensures
        ({
            let mailbox = spec_address_to_bytes(origin_mailbox@);
            let after = before.upsert_all(dispatch_writes(mailbox, batch, time_created));
            let key = (mailbox, batch[at].msg.origin, batch[at].msg.nonce);
            &&& after.wf()
            &&& after.holds(key)
            &&& after.row_of(key).entry.message() == Some(
                MessageView { version: PROTOCOL_VERSION, ..batch[at].msg@ },
            )
            &&& after.row_of(key).entry.origin_tx_id == batch[at].txn_id
            &&& after.row_of(key).entry.time_created == time_created
        }),
{
    let mailbox = spec_address_to_bytes(origin_mailbox@);
    let writes = dispatch_writes(mailbox, batch, time_created);
    let after = before.upsert_all(writes);
    let key = (mailbox, batch[at].msg.origin, batch[at].msg.nonce);
    lemma_upsert_all(before, writes);
    assert(writes[at].key() == key);
    assert forall|k: int| at < k < writes.len() implies (#[trigger] writes[k]).key()
        != writes[at].key() by {
        assert(!(batch[k].msg.origin == batch[at].msg.origin && batch[k].msg.nonce
            == batch[at].msg.nonce));
    }
    lemma_latest_write_wins(before, writes, at);
    lemma_message_round_trip(
        mailbox,
        batch[at].msg@,
        writes[at].msg_id,
        batch[at].txn_id,
        time_created,
    );
    let stored = after.row_of(key).entry;
    assert(stored.message() == writes[at].message());
}

/// Of the deliveries of a batch that name the same message, the last is the
/// one whose transaction and time the row of that message holds afterwards.
pub proof fn lemma_latest_delivery_is_kept(
    before: Table<DeliveryEntry>,
    domain: u32,
    destination_mailbox: H256,
    batch: Seq<StorableDelivery<'_>>,
    time_created: u64,
    at: int,
)
    requires
        before.wf(),
        0 <= at < batch.len(),
        forall|k: int|
            at < k < batch.len() ==> (#[trigger] batch[k]).message_id@ != batch[at].message_id@,
    ensures
        ({
            let mailbox = spec_address_to_bytes(destination_mailbox@);
            let after = before.upsert_all(delivery_writes(domain, mailbox, batch, time_created));
            let key = batch[at].message_id@;
            &&& after.wf()
            &&& after.holds(key)
            &&& after.row_of(key).entry.msg_id == key
            &&& after.row_of(key).entry.destination_tx_id == batch[at].txn_id
            &&& after.row_of(key).entry.time_created == time_created
        }),
{
    let mailbox = spec_address_to_bytes(destination_mailbox@);
    let writes = delivery_writes(domain, mailbox, batch, time_created);
    lemma_upsert_all(before, writes);
    assert(writes[at].key() == batch[at].message_id@);
    assert forall|k: int| at < k < writes.len() implies (#[trigger] writes[k]).key()
        != writes[at].key() by {
        assert(batch[k].message_id@ != batch[at].message_id@);
    }
    lemma_latest_write_wins(before, writes, at);
}

/// Whether one of the messages of `batch` was dispatched on `domain` under
/// `nonce`.
pub open spec fn has_nonce(batch: Seq<StorableMessage<'_>>, domain: u32, nonce: u32) -> bool {
    exists|j: int|
        #![trigger batch[j]]
        0 <= j < batch.len() && batch[j].msg.origin == domain && batch[j].msg.nonce == nonce
}

/// After a batch is stored, the nonce at which scraping resumes is the
/// highest of the one before and those of the batch that were dispatched on
/// the domain: it is below none of them, and it is one of them.
pub proof fn lemma_resume_after_store(
    before: Table<MessageEntry>,
    domain: u32,
    origin_mailbox: H256,
    batch: Seq<StorableMessage<'_>>,
    time_created: u64,
    previous: Option<u32>,
    answer: Option<u32>,
)
    requires
        before.wf(),
        is_highest_nonce(before.rows, domain, spec_address_to_bytes(origin_mailbox@), previous),
        is_highest_nonce(
            before.upsert_all(
                dispatch_writes(spec_address_to_bytes(origin_mailbox@), batch, time_created),
            ).rows,
            domain,
            spec_address_to_bytes(origin_mailbox@),
            answer,
        ),
    ensures
        previous matches Some(nonce) ==> answer is Some && answer.unwrap() >= nonce,
        forall|j: int|
            #![trigger batch[j]]
            0 <= j < batch.len() && batch[j].msg.origin == domain ==> answer is Some
                && answer.unwrap() >= batch[j].msg.nonce,
        answer matches Some(nonce) ==> previous == Some(nonce) || has_nonce(batch, domain, nonce),
{
    let mailbox = spec_address_to_bytes(origin_mailbox@);
    let writes = dispatch_writes(mailbox, batch, time_created);
    let after = before.upsert_all(writes);
    lemma_upsert_all(before, writes);
    lemma_new_rows(before, writes, domain, mailbox);
    if previous is Some {
        let at = choose|i: int|
            #![trigger before.rows[i]]
            0 <= i < before.rows.len() && before.rows[i].entry.in_mailbox(domain, mailbox)
                && before.rows[i].entry.nonce == previous.unwrap();
        assert(after.rows[at].entry.key() == before.rows[at].entry.key());
        assert(after.rows[at].entry.in_mailbox(domain, mailbox));
    }
    assert forall|j: int|
        #![trigger batch[j]]
        0 <= j < batch.len() && batch[j].msg.origin == domain implies answer is Some
        && answer.unwrap() >= batch[j].msg.nonce by {
        let key = writes[j].key();
        assert(has_key(writes, key));
        assert(after.holds(key));
        let found = after.position(key);
        assert(0 <= found < after.rows.len() && after.rows[found].entry.key() == key);
        assert(after.rows[found].entry.in_mailbox(domain, mailbox));
    }
    if answer is Some {
        let nonce = answer.unwrap();
        let at = choose|i: int|
            #![trigger after.rows[i]]
            0 <= i < after.rows.len() && after.rows[i].entry.in_mailbox(domain, mailbox)
                && after.rows[i].entry.nonce == nonce;
        if at < before.rows.len() {
            assert(after.rows[at].entry.key() == before.rows[at].entry.key());
            assert(before.rows[at].entry.in_mailbox(domain, mailbox));
            assert(before.rows[at].entry.nonce == nonce);
        } else {
            assert(written_by(after.rows[at], writes, domain, mailbox));
            let j = choose|j: int|
                #![trigger writes[j]]
                0 <= j < writes.len() && writes[j].key() == after.rows[at].entry.key()
                    && writes[j].in_mailbox(domain, mailbox) == after.rows[at].entry.in_mailbox(
                    domain,
                    mailbox,
                );
            assert(batch[j].msg.origin == domain && batch[j].msg.nonce == nonce);
        }
    }
}

/// Where nothing is stored for a mailbox, there is no nonce to resume from.
pub proof fn lemma_resume_from_nothing(domain: u32, origin_mailbox: H256)
    ensures
        is_highest_nonce(
            Table::<MessageEntry>::empty().rows,
            domain,
            spec_address_to_bytes(origin_mailbox@),
            None,
        ),
{
}

} // verus!
