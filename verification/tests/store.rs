use message_store::db::ScraperDb;
use message_store::error::StoreError;
use message_store::message::{HyperlaneMessage, LogMeta, StorableDelivery, StorableMessage};
use message_store::primitives::H256;

const DOMAIN: u32 = 11;

fn meta() -> LogMeta {
    LogMeta {
        address: H256([0u8; 32]),
        block_number: 1,
        block_hash: H256([0u8; 32]),
        transaction_id: [0u8; 64],
        transaction_index: 0,
        log_index: [0u64; 4],
    }
}

fn mailbox() -> H256 {
    H256([7u8; 32])
}

fn message(nonce: u32, origin: u32, body: Vec<u8>) -> HyperlaneMessage {
    HyperlaneMessage {
        version: 3,
        nonce,
        origin,
        sender: H256([1u8; 32]),
        destination: 2,
        recipient: H256([2u8; 32]),
        body,
    }
}

fn dispatch<'a>(meta: &'a LogMeta, nonce: u32, body: Vec<u8>, txn_id: i64) -> StorableMessage<'a> {
    StorableMessage { msg: message(nonce, DOMAIN, body), meta, txn_id }
}

fn batch(meta: &LogMeta) -> Vec<StorableMessage<'_>> {
    vec![dispatch(meta, 5, vec![1, 2, 3], 100), dispatch(meta, 6, vec![4], 101)]
}

fn delivery<'a>(meta: &'a LogMeta, id: u8, txn_id: i64) -> StorableDelivery<'a> {
    StorableDelivery { message_id: H256([id; 32]), meta, txn_id }
}

#[test]
fn store_batch_then_restore_counts_nothing_new() {
    let meta = meta();
    let mut db = ScraperDb::new();
    assert_eq!(db.store_dispatched_messages(DOMAIN, &mailbox(), batch(&meta), 1_700_000_000), Ok(2));
    assert_eq!(db.store_dispatched_messages(DOMAIN, &mailbox(), batch(&meta), 1_700_000_001), Ok(0));
    assert_eq!(db.last_message_nonce(DOMAIN, &mailbox()), Ok(Some(6)));
    assert_eq!(db.messages().len(), 2);
}

#[test]
fn first_store_counts_and_second_does_not() {
    let meta = meta();
    let mut db = ScraperDb::new();
    let first = db.store_dispatched_messages(DOMAIN, &mailbox(), vec![dispatch(&meta, 0, vec![9], 1)], 10);
    let second = db.store_dispatched_messages(DOMAIN, &mailbox(), vec![dispatch(&meta, 0, vec![9], 1)], 10);
    assert!(first.unwrap() > 0);
    assert_eq!(second, Ok(0));
}

#[test]
fn only_rows_that_were_not_there_are_counted() {
    let meta = meta();
    let mut db = ScraperDb::new();
    assert_eq!(db.store_dispatched_messages(DOMAIN, &mailbox(), batch(&meta), 10), Ok(2));
    let mixed = vec![
        dispatch(&meta, 6, vec![4], 101),
        dispatch(&meta, 7, vec![5], 102),
        dispatch(&meta, 8, vec![6], 103),
    ];
    assert_eq!(db.store_dispatched_messages(DOMAIN, &mailbox(), mixed, 11), Ok(2));
    assert_eq!(db.messages().len(), 4);
    assert_eq!(db.messages().row(3).id, 4);
    assert_eq!(db.last_message_nonce(DOMAIN, &mailbox()), Ok(Some(8)));
}

#[test]
fn same_key_twice_keeps_one_row_with_the_latest_body() {
    let meta = meta();
    let mut db = ScraperDb::new();
    let both = vec![dispatch(&meta, 3, vec![1, 1], 50), dispatch(&meta, 3, vec![2, 2, 2], 51)];
    assert_eq!(db.store_dispatched_messages(DOMAIN, &mailbox(), both, 20), Ok(1));
    assert_eq!(db.messages().len(), 1);
    let row = db.messages().row(0);
    assert_eq!(row.id, 1);
    assert_eq!(row.fields.msg_body, Some(vec![2, 2, 2]));
    assert_eq!(row.fields.origin_tx_id, 51);
    assert_eq!(db.retrieve_dispatched_tx_id(DOMAIN, &mailbox(), 3), Ok(Some(51)));
}

#[test]
fn later_batch_refreshes_all_but_key_and_message_id() {
    let meta = meta();
    let mut db = ScraperDb::new();
    assert_eq!(
        db.store_dispatched_messages(DOMAIN, &mailbox(), vec![dispatch(&meta, 3, vec![1], 50)], 20),
        Ok(1)
    );
    let first_id = db.messages().row(0).fields.msg_id.clone();
    let mut changed = message(3, DOMAIN, vec![8, 8]);
    changed.destination = 77;
    changed.sender = H256([5u8; 32]);
    changed.recipient = H256([6u8; 32]);
    let again = vec![StorableMessage { msg: changed, meta: &meta, txn_id: 60 }];
    assert_eq!(db.store_dispatched_messages(DOMAIN, &mailbox(), again, 30), Ok(0));
    let row = db.messages().row(0);
    assert_eq!(row.id, 1);
    assert_eq!(row.fields.msg_id, first_id);
    assert_eq!(row.fields.time_created, 30);
    assert_eq!(row.fields.destination, 77);
    assert_eq!(row.fields.sender, vec![5u8; 32]);
    assert_eq!(row.fields.recipient, vec![6u8; 32]);
    assert_eq!(row.fields.msg_body, Some(vec![8, 8]));
    assert_eq!(row.fields.origin_tx_id, 60);
    assert_eq!(row.fields.origin, DOMAIN);
    assert_eq!(row.fields.nonce, 3);
    assert_eq!(row.fields.origin_mailbox, vec![7u8; 32]);
}

#[test]
fn highest_nonce_after_storing_three_and_after_storing_none() {
    let meta = meta();
    let mut db = ScraperDb::new();
    assert_eq!(db.last_message_nonce(DOMAIN, &mailbox()), Ok(None));
    let three = vec![
        dispatch(&meta, 0, vec![], 1),
        dispatch(&meta, 2, vec![], 3),
        dispatch(&meta, 1, vec![], 2),
    ];
    assert_eq!(db.store_dispatched_messages(DOMAIN, &mailbox(), three, 5), Ok(3));
    assert_eq!(db.last_message_nonce(DOMAIN, &mailbox()), Ok(Some(2)));
    assert_eq!(db.last_message_nonce(DOMAIN + 1, &mailbox()), Ok(None));
    assert_eq!(db.last_message_nonce(DOMAIN, &H256([8u8; 32])), Ok(None));
}

#[test]
fn highest_nonce_is_compared_as_unsigned() {
    let meta = meta();
    let mut db = ScraperDb::new();
    let two = vec![dispatch(&meta, 0x8000_0000, vec![], 1), dispatch(&meta, 7, vec![], 2)];
    assert_eq!(db.store_dispatched_messages(DOMAIN, &mailbox(), two, 5), Ok(2));
    assert_eq!(db.last_message_nonce(DOMAIN, &mailbox()), Ok(Some(0x8000_0000)));
}

#[test]
fn stored_message_is_read_back() {
    let meta = meta();
    let mut db = ScraperDb::new();
    let mut sent = message(9, DOMAIN, vec![10, 20, 30]);
    sent.sender = H256([
        0, 0, 0, 0, 0, 0, 0, 0, 0, 0, 0, 0, 1, 2, 3, 4, 5, 6, 7, 8, 9, 10, 11, 12, 13, 14, 15, 16,
        17, 18, 19, 20,
    ]);
    let stored = vec![StorableMessage { msg: sent.clone(), meta: &meta, txn_id: 4 }];
    assert_eq!(db.store_dispatched_messages(DOMAIN, &mailbox(), stored, 5), Ok(1));
    assert_eq!(db.messages().row(0).fields.sender.len(), 20);
    assert_eq!(db.retrieve_message_by_nonce(DOMAIN, &mailbox(), 9), Ok(Some(sent)));
    assert_eq!(db.retrieve_message_by_nonce(DOMAIN, &mailbox(), 10), Ok(None));
    assert_eq!(db.retrieve_message_by_nonce(DOMAIN + 1, &mailbox(), 9), Ok(None));
}

#[test]
fn empty_body_is_stored_as_absent_and_read_back_empty() {
    let meta = meta();
    let mut db = ScraperDb::new();
    assert_eq!(
        db.store_dispatched_messages(DOMAIN, &mailbox(), vec![dispatch(&meta, 1, vec![], 4)], 5),
        Ok(1)
    );
    assert_eq!(db.messages().row(0).fields.msg_body, None);
    let read = db.retrieve_message_by_nonce(DOMAIN, &mailbox(), 1).unwrap().unwrap();
    assert_eq!(read.body, Vec::<u8>::new());
}

#[test]
fn version_read_back_is_the_current_one() {
    let meta = meta();
    let mut db = ScraperDb::new();
    let mut old = message(1, DOMAIN, vec![1]);
    old.version = 2;
    let stored = vec![StorableMessage { msg: old, meta: &meta, txn_id: 4 }];
    assert_eq!(db.store_dispatched_messages(DOMAIN, &mailbox(), stored, 5), Ok(1));
    let read = db.retrieve_message_by_nonce(DOMAIN, &mailbox(), 1).unwrap().unwrap();
    assert_eq!(read.version, 3);
    assert_eq!(read, message(1, DOMAIN, vec![1]));
}

#[test]
fn dispatch_tx_id_of_a_nonce() {
    let meta = meta();
    let mut db = ScraperDb::new();
    assert_eq!(db.retrieve_dispatched_tx_id(DOMAIN, &mailbox(), 5), Ok(None));
    assert_eq!(db.store_dispatched_messages(DOMAIN, &mailbox(), batch(&meta), 10), Ok(2));
    assert_eq!(db.retrieve_dispatched_tx_id(DOMAIN, &mailbox(), 5), Ok(Some(100)));
    assert_eq!(db.retrieve_dispatched_tx_id(DOMAIN, &mailbox(), 6), Ok(Some(101)));
    assert_eq!(db.retrieve_dispatched_tx_id(DOMAIN, &mailbox(), 7), Ok(None));
}

#[test]
fn message_of_another_origin_is_stored_but_not_counted() {
    let meta = meta();
    let mut db = ScraperDb::new();
    let foreign = vec![
        StorableMessage { msg: message(1, DOMAIN + 1, vec![1]), meta: &meta, txn_id: 1 },
        dispatch(&meta, 2, vec![2], 2),
    ];
    assert_eq!(db.store_dispatched_messages(DOMAIN, &mailbox(), foreign, 10), Ok(1));
    assert_eq!(db.messages().len(), 2);
    assert_eq!(db.last_message_nonce(DOMAIN + 1, &mailbox()), Ok(Some(1)));
}

#[test]
fn mailboxes_are_counted_apart() {
    let meta = meta();
    let other = H256([9u8; 32]);
    let mut db = ScraperDb::new();
    assert_eq!(db.store_dispatched_messages(DOMAIN, &mailbox(), batch(&meta), 10), Ok(2));
    assert_eq!(db.store_dispatched_messages(DOMAIN, &other, batch(&meta), 10), Ok(2));
    assert_eq!(db.store_dispatched_messages(DOMAIN, &mailbox(), batch(&meta), 10), Ok(0));
    assert_eq!(db.messages().len(), 4);
}

#[test]
fn empty_batch_of_messages_is_refused() {
    let mut db = ScraperDb::new();
    assert_eq!(
        db.store_dispatched_messages(DOMAIN, &mailbox(), Vec::new(), 10),
        Err(StoreError::InvariantViolation)
    );
    assert_eq!(db.messages().len(), 0);
}

#[test]
fn empty_batch_of_deliveries_is_refused() {
    let mut db = ScraperDb::new();
    assert_eq!(
        db.store_deliveries(DOMAIN, mailbox(), Vec::new(), 10),
        Err(StoreError::InvariantViolation)
    );
    assert_eq!(db.deliveries().len(), 0);
}

#[test]
fn delivery_stored_again_updates_its_transaction() {
    let meta = meta();
    let mut db = ScraperDb::new();
    assert_eq!(db.store_deliveries(DOMAIN, mailbox(), vec![delivery(&meta, 0xAB, 200)], 40), Ok(1));
    assert_eq!(db.store_deliveries(DOMAIN, mailbox(), vec![delivery(&meta, 0xAB, 201)], 41), Ok(0));
    assert_eq!(db.deliveries().len(), 1);
    let row = db.deliveries().row(0);
    assert_eq!(row.id, 1);
    assert_eq!(row.fields.msg_id, vec![0xABu8; 32]);
    assert_eq!(row.fields.destination_tx_id, 201);
    assert_eq!(row.fields.time_created, 41);
    assert_eq!(row.fields.domain, DOMAIN);
    assert_eq!(row.fields.destination_mailbox, vec![7u8; 32]);
}

#[test]
fn deliveries_are_counted_once() {
    let meta = meta();
    let mut db = ScraperDb::new();
    let first = vec![delivery(&meta, 1, 10), delivery(&meta, 2, 11), delivery(&meta, 1, 12)];
    assert_eq!(db.store_deliveries(DOMAIN, mailbox(), first, 40), Ok(2));
    assert_eq!(db.deliveries().row(0).fields.destination_tx_id, 12);
    let second = vec![delivery(&meta, 2, 13), delivery(&meta, 3, 14)];
    assert_eq!(db.store_deliveries(DOMAIN, mailbox(), second, 41), Ok(1));
    assert_eq!(db.deliveries().len(), 3);
}

#[test]
fn delivery_keeps_the_mailbox_under_which_it_was_first_stored() {
    let meta = meta();
    let other = H256([9u8; 32]);
    let mut db = ScraperDb::new();
    assert_eq!(db.store_deliveries(DOMAIN, mailbox(), vec![delivery(&meta, 1, 10)], 40), Ok(1));
    assert_eq!(db.store_deliveries(DOMAIN + 1, other, vec![delivery(&meta, 1, 11)], 41), Ok(0));
    let row = db.deliveries().row(0);
    assert_eq!(row.fields.domain, DOMAIN);
    assert_eq!(row.fields.destination_mailbox, vec![7u8; 32]);
    assert_eq!(row.fields.destination_tx_id, 11);
}

#[test]
fn storing_messages_leaves_deliveries_alone() {
    let meta = meta();
    let mut db = ScraperDb::new();
    assert_eq!(db.store_deliveries(DOMAIN, mailbox(), vec![delivery(&meta, 1, 10)], 40), Ok(1));
    assert_eq!(db.store_dispatched_messages(DOMAIN, &mailbox(), batch(&meta), 41), Ok(2));
    assert_eq!(db.deliveries().len(), 1);
    assert_eq!(db.messages().len(), 2);
}
