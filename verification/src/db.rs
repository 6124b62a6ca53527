//! The store: the table of dispatched messages and the table of deliveries,
//! written in batches that are safe to repeat and asked where to resume.

use crate::error::StoreError;
use crate::message::{keccak256_of, HyperlaneMessage, StorableDelivery, StorableMessage};
use crate::primitives::{address_to_bytes, same_bytes, spec_address_to_bytes, H256};
use crate::rows::{
    delivery_fields, spec_delivery_entry, spec_message_entry, DeliveryEntry, DeliveryFields,
    MessageEntry, MessageFields,
};
use crate::stored::{views, Record, StoredTable};
use crate::table::{lemma_position, Entry, Row, Table};
use crate::watermark::{baseline_from_query, count_since, latest_id};
use vstd::prelude::*;

verus! {

/// What the store holds.
#[verifier::ext_equal]
pub struct DbView {
    /// The dispatched messages.
    pub messages: Table<MessageEntry>,
    /// The deliveries.
    pub deliveries: Table<DeliveryEntry>,
}

/// The store.
pub struct ScraperDb {
    messages: StoredTable<MessageFields>,
    deliveries: StoredTable<DeliveryFields>,
}

impl View for ScraperDb {
    type V = DbView;

    closed spec fn view(&self) -> DbView {
        DbView { messages: self.messages@, deliveries: self.deliveries@ }
    }
}

/// The rows that a batch of dispatched messages writes for the mailbox whose
/// stored address is `origin_mailbox`.
pub open spec fn dispatch_writes(
    origin_mailbox: Seq<u8>,
    batch: Seq<StorableMessage<'_>>,
    time_created: u64,
) -> Seq<MessageEntry> {
    Seq::new(
        batch.len(),
        |i: int|
            spec_message_entry(
                origin_mailbox,
                batch[i].msg@,
                keccak256_of(batch[i].msg@.encoding()),
                batch[i].txn_id,
                time_created,
            ),
    )
}

/// The rows that a batch of deliveries writes for the mailbox whose stored
/// address is `destination_mailbox`, on chain `domain`.
pub open spec fn delivery_writes(
    domain: u32,
    destination_mailbox: Seq<u8>,
    batch: Seq<StorableDelivery<'_>>,
    time_created: u64,
) -> Seq<DeliveryEntry> {
    Seq::new(
        batch.len(),
        |i: int|
            spec_delivery_entry(
                domain,
                destination_mailbox,
                batch[i].message_id@,
                batch[i].txn_id,
                time_created,
            ),
    )
}

/// Whether `answer` is the highest nonce among those of `rows` that were
/// dispatched from `mailbox` on `domain`: nothing where there is no such row,
/// and otherwise the nonce of one of them that none of them exceeds.
pub open spec fn is_highest_nonce(
    rows: Seq<Row<MessageEntry>>,
    domain: u32,
    mailbox: Seq<u8>,
    answer: Option<u32>,
) -> bool {
    match answer {
        None => forall|i: int|
            #![trigger rows[i]]
            0 <= i < rows.len() ==> !rows[i].entry.in_mailbox(domain, mailbox),
        Some(nonce) => {
            &&& exists|i: int|
                #![trigger rows[i]]
                0 <= i < rows.len() && rows[i].entry.in_mailbox(domain, mailbox)
                    && rows[i].entry.nonce == nonce
            &&& forall|i: int|
                #![trigger rows[i]]
                0 <= i < rows.len() && rows[i].entry.in_mailbox(domain, mailbox)
                    ==> rows[i].entry.nonce <= nonce
        },
    }
}

impl ScraperDb {
    /// Both tables are well-formed.
    pub open spec fn wf(&self) -> bool {
        self@.messages.wf() && self@.deliveries.wf()
    }

    /// A store without rows.
    pub fn new() -> (db: ScraperDb)
        ensures
            db.wf(),
            db@.messages == Table::<MessageEntry>::empty(),
            db@.deliveries == Table::<DeliveryEntry>::empty(),
    {
        ScraperDb { messages: StoredTable::new(), deliveries: StoredTable::new() }
    }

    /// The table of dispatched messages.
    pub fn messages(&self) -> (table: &StoredTable<MessageFields>)
        ensures
            table@ == self@.messages,
    {
        &self.messages
    }

    /// The table of deliveries.
    pub fn deliveries(&self) -> (table: &StoredTable<DeliveryFields>)
        ensures
            table@ == self@.deliveries,
    {
        &self.deliveries
    }

    /// The highest nonce among the messages stored for a mailbox, which is
    /// where scraping resumes; nothing where no message of the mailbox is
    /// stored.
    pub fn last_message_nonce(&self, origin_domain: u32, origin_mailbox: &H256) -> (last: Result<
        Option<u32>,
        StoreError,
    >)
        ensures
            last is Ok,
            is_highest_nonce(
                self@.messages.rows,
                origin_domain,
                spec_address_to_bytes(origin_mailbox@),
                last.unwrap(),
            ),
    {
        let mailbox = address_to_bytes(origin_mailbox);
        let ghost rows = self@.messages.rows;
        let mut last_nonce: Option<u32> = None;
        let mut i: usize = 0;
        while i < self.messages.len()
            invariant
                i <= rows.len(),
                rows == self@.messages.rows,
                is_highest_nonce(rows.take(i as int), origin_domain, mailbox@, last_nonce),
            decreases rows.len() - i,
        {
            let row = self.messages.row(i);
            let ghost front = rows.take(i as int);
            let ghost next = rows.take(i + 1);
            let ghost was = last_nonce;
            assert(next[i as int] == rows[i as int]);
            assert(forall|j: int| 0 <= j < i ==> #[trigger] next[j] == front[j]);
            proof {
                if was is Some {
                    let at = choose|j: int|
                        #![trigger front[j]]
                        0 <= j < front.len() && front[j].entry.in_mailbox(origin_domain, mailbox@)
                            && front[j].entry.nonce == was.unwrap();
                    assert(next[at] == front[at]);
                }
            }
            if row.fields.observed_at(origin_domain, &mailbox) {
                let higher = match last_nonce {
                    Some(best) => best < row.fields.nonce,
                    None => true,
                };
                if higher {
                    last_nonce = Some(row.fields.nonce);
                }
            }
            i += 1;
        }
        assert(rows.take(rows.len() as int) =~= rows);
        Ok(last_nonce)
    }

    /// The message that was dispatched from a mailbox under a nonce, rebuilt
    /// from its row; nothing where no such message is stored. Fails where the
    /// row cannot be read back as a message.
    pub fn retrieve_message_by_nonce(
        &self,
        origin_domain: u32,
        origin_mailbox: &H256,
        nonce: u32,
    ) -> (message: Result<Option<HyperlaneMessage>, StoreError>)
        requires
            self.wf(),
        ensures
            ({
                let key = (spec_address_to_bytes(origin_mailbox@), origin_domain, nonce);
                match message {
                    Ok(Some(m)) => self@.messages.holds(key) && self@.messages.row_of(
                        key,
                    ).entry.message() == Some(m@),
                    Ok(None) => !self@.messages.holds(key),
                    Err(e) => e == StoreError::Decode && self@.messages.holds(key)
                        && self@.messages.row_of(key).entry.message() is None,
                }
            }),
    {
        let mailbox = address_to_bytes(origin_mailbox);
        let ghost key = (mailbox@, origin_domain, nonce);
        let mut i: usize = 0;
        while i < self.messages.len()
            invariant
                i <= self@.messages.rows.len(),
                self.wf(),
                mailbox@ == spec_address_to_bytes(origin_mailbox@),
                key == (mailbox@, origin_domain, nonce),
                forall|j: int| 0 <= j < i ==> (#[trigger] self@.messages.rows[j]).entry.key() != key,
            decreases self@.messages.rows.len() - i,
        {
            let row = self.messages.row(i);
            if row.fields.origin == origin_domain && row.fields.nonce == nonce && same_bytes(
                &row.fields.origin_mailbox,
                &mailbox,
            ) {
                proof {
                    lemma_position(self@.messages, key, i as int);
                }
                return match row.fields.to_message() {
                    Ok(m) => Ok(Some(m)),
                    Err(e) => Err(e),
                };
            }
            i += 1;
        }
        Ok(None)
    }

    /// The store's identifier of the transaction in which the message under
    /// a nonce was dispatched; nothing where no such message is stored. It
    /// is taken as the greatest over the rows that match, of which a
    /// well-formed table has one at most.
    pub fn retrieve_dispatched_tx_id(
        &self,
        origin_domain: u32,
        origin_mailbox: &H256,
        nonce: u32,
    ) -> (tx_id: Result<Option<i64>, StoreError>)
        requires
            self.wf(),
        ensures
            tx_id is Ok,
            ({
                let key = (spec_address_to_bytes(origin_mailbox@), origin_domain, nonce);
                match tx_id.unwrap() {
                    Some(id) => self@.messages.holds(key) && self@.messages.row_of(
                        key,
                    ).entry.origin_tx_id == id,
                    None => !self@.messages.holds(key),
                }
            }),
    {
        let mailbox = address_to_bytes(origin_mailbox);
        let ghost key = (mailbox@, origin_domain, nonce);
        let ghost rows = self@.messages.rows;
        let mut greatest: Option<i64> = None;
        let mut found: Ghost<int> = Ghost(0);
        let mut i: usize = 0;
        while i < self.messages.len()
            invariant
                i <= rows.len(),
                rows == self@.messages.rows,
                self.wf(),
                key == (mailbox@, origin_domain, nonce),
                greatest is None ==> forall|j: int|
                    0 <= j < i ==> (#[trigger] rows[j]).entry.key() != key,
                greatest matches Some(id) ==> 0 <= found@ < i && rows[found@].entry.key() == key
                    && rows[found@].entry.origin_tx_id == id,
            decreases rows.len() - i,
        {
            let row = self.messages.row(i);
            if row.fields.origin == origin_domain && row.fields.nonce == nonce && same_bytes(
                &row.fields.origin_mailbox,
                &mailbox,
            ) {
                let greater = match greatest {
                    Some(id) => id < row.fields.origin_tx_id,
                    None => true,
                };
                if greater {
                    greatest = Some(row.fields.origin_tx_id);
                    proof {
                        found@ = i as int;
                    }
                }
            }
            i += 1;
        }
        proof {
            if greatest is Some {
                lemma_position(self@.messages, key, found@);
            }
        }
        Ok(greatest)
    }

    /// The baseline for the deliveries at a mailbox: the greatest identifier
    /// among its rows, or 0 where it has none.
    fn latest_deliveries_id(&self, domain: u32, destination_mailbox: Vec<u8>) -> (latest: Result<
        i64,
        StoreError,
    >)
        ensures
            latest is Ok,
            latest.unwrap() == self@.deliveries.baseline(domain, destination_mailbox@),
    {
        let ids = self.deliveries.ids_in_mailbox(domain, &destination_mailbox);
        baseline_from_query(Some(latest_id(&ids)))
    }

    /// How many deliveries at a mailbox have an identifier beyond `prev_id`.
    fn deliveries_count_since_id(
        &self,
        domain: u32,
        destination_mailbox: Vec<u8>,
        prev_id: i64,
    ) -> (count: Result<u64, StoreError>)
        ensures
            count is Ok,
            count.unwrap() == self@.deliveries.count_since(
                domain,
                destination_mailbox@,
                prev_id as int,
            ),
    {
        let ids = self.deliveries.ids_in_mailbox(domain, &destination_mailbox);
        Ok(count_since(&ids, prev_id))
    }

    /// Stores the deliveries observed at a mailbox, and says how many rows
    /// that added. A delivery of a message that has a row already refreshes
    /// the time and the transaction of that row. An empty batch is refused,
    /// and so is one for which the identifiers do not suffice; then nothing
    /// is written.
    pub fn store_deliveries(
        &mut self,
        domain: u32,
        destination_mailbox: H256,
        deliveries: Vec<StorableDelivery<'_>>,
        time_created: u64,
    ) -> (stored: Result<u64, StoreError>)
        requires
            old(self).wf(),
        ensures
            final(self).wf(),
            final(self)@.messages == old(self)@.messages,
            ({
                let mailbox = spec_address_to_bytes(destination_mailbox@);
                let before = old(self)@.deliveries;
                let after = before.upsert_all(
                    delivery_writes(domain, mailbox, deliveries@, time_created),
                );
                match stored {
                    Ok(count) => {
                        &&& deliveries@.len() > 0
                        &&& after.last_id <= i64::MAX
                        &&& final(self)@.deliveries == after
                        &&& count == after.count_since(
                            domain,
                            mailbox,
                            before.baseline(domain, mailbox),
                        )
                    },
                    Err(e) => {
                        &&& final(self)@ == old(self)@
                        &&& if deliveries@.len() == 0 {
                            e == StoreError::InvariantViolation
                        } else {
                            e == StoreError::Query && after.last_id > i64::MAX
                        }
                    },
                }
            }),
    {
        let destination_mailbox = address_to_bytes(&destination_mailbox);
        let latest_id_before = match self.latest_deliveries_id(
            domain,
            destination_mailbox.clone(),
        ) {
            Ok(id) => id,
            Err(e) => {
                return Err(e);
            },
        };
        let ghost batch = deliveries@;
        let mut models: Vec<DeliveryFields> = Vec::new();
        let mut i: usize = 0;
        while i < deliveries.len()
            invariant
                i <= batch.len(),
                batch == deliveries@,
                models@.len() == i,
                forall|j: int|
                    0 <= j < i ==> (#[trigger] models@[j])@ == spec_delivery_entry(
                        domain,
                        destination_mailbox@,
                        batch[j].message_id@,
                        batch[j].txn_id,
                        time_created,
                    ),
            decreases batch.len() - i,
        {
            models.push(delivery_fields(domain, &destination_mailbox, &deliveries[i], time_created));
            i += 1;
        }
        assert(views(models@) =~= delivery_writes(
            domain,
            destination_mailbox@,
            batch,
            time_created,
        ));
        if models.len() == 0 {
            return Err(StoreError::InvariantViolation);
        }
        match self.deliveries.upsert_all(models) {
            Ok(_) => {},
            Err(e) => {
                return Err(e);
            },
        }
        self.deliveries_count_since_id(domain, destination_mailbox, latest_id_before)
    }

    /// The baseline for the messages of a mailbox: the greatest identifier
    /// among its rows, or 0 where it has none.
    fn latest_dispatched_id(&self, domain: u32, origin_mailbox: Vec<u8>) -> (latest: Result<
        i64,
        StoreError,
    >)
        ensures
            latest is Ok,
            latest.unwrap() == self@.messages.baseline(domain, origin_mailbox@),
    {
        let ids = self.messages.ids_in_mailbox(domain, &origin_mailbox);
        baseline_from_query(Some(latest_id(&ids)))
    }

    /// How many messages of a mailbox have an identifier beyond `prev_id`.
    fn dispatch_count_since_id(&self, domain: u32, origin_mailbox: Vec<u8>, prev_id: i64) -> (count:
        Result<u64, StoreError>)
        ensures
            count is Ok,
            count.unwrap() == self@.messages.count_since(domain, origin_mailbox@, prev_id as int),
    {
        let ids = self.messages.ids_in_mailbox(domain, &origin_mailbox);
        Ok(count_since(&ids, prev_id))
    }

    /// Stores the messages dispatched from a mailbox, and says how many rows
    /// of that mailbox on `domain` that added. A message whose mailbox,
    /// origin and nonce have a row already refreshes the other columns of
    /// that row, but for the identifier of the message. An empty batch is
    /// refused, and so is one for which the identifiers do not suffice; then
    /// nothing is written.
    pub fn store_dispatched_messages(
        &mut self,
        domain: u32,
        origin_mailbox: &H256,
        messages: Vec<StorableMessage<'_>>,
        time_created: u64,
    ) -> (stored: Result<u64, StoreError>)
        requires
            old(self).wf(),
        ensures
            final(self).wf(),
            final(self)@.deliveries == old(self)@.deliveries,
            ({
                let mailbox = spec_address_to_bytes(origin_mailbox@);
                let before = old(self)@.messages;
                let after = before.upsert_all(dispatch_writes(mailbox, messages@, time_created));
                match stored {
                    Ok(count) => {
                        &&& messages@.len() > 0
                        &&& after.last_id <= i64::MAX
                        &&& final(self)@.messages == after
                        &&& count == after.count_since(
                            domain,
                            mailbox,
                            before.baseline(domain, mailbox),
                        )
                    },
                    Err(e) => {
                        &&& final(self)@ == old(self)@
                        &&& if messages@.len() == 0 {
                            e == StoreError::InvariantViolation
                        } else {
                            e == StoreError::Query && after.last_id > i64::MAX
                        }
                    },
                }
            }),
    {
        let origin_mailbox = address_to_bytes(origin_mailbox);
        let latest_id_before = match self.latest_dispatched_id(domain, origin_mailbox.clone()) {
            Ok(id) => id,
            Err(e) => {
                return Err(e);
            },
        };
        let ghost batch = messages@;
        let mut models: Vec<MessageFields> = Vec::new();
        for storable in it: messages
            invariant
                it.seq() == batch,
                models@.len() == it.index(),
                forall|j: int|
                    0 <= j < it.index() ==> (#[trigger] models@[j])@ == spec_message_entry(
                        origin_mailbox@,
                        batch[j].msg@,
                        keccak256_of(batch[j].msg@.encoding()),
                        batch[j].txn_id,
                        time_created,
                    ),
        {
            models.push(storable.into_fields(&origin_mailbox, time_created));
        }
        assert(views(models@) =~= dispatch_writes(origin_mailbox@, batch, time_created));
        if models.len() == 0 {
            return Err(StoreError::InvariantViolation);
        }
        match self.messages.upsert_all(models) {
            Ok(_) => {},
            Err(e) => {
                return Err(e);
            },
        }
        self.dispatch_count_since_id(domain, origin_mailbox, latest_id_before)
    }
}

} // verus!
