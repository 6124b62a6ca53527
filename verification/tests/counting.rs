use message_store::error::StoreError;
use message_store::ingest::{advance, begin, IngestAction, IngestState, StoreReply};
use message_store::rows::DeliveryFields;
use message_store::stored::StoredTable;
use message_store::watermark::{baseline_from_query, count_since, latest_id};

fn delivery(id: u8, domain: u32, mailbox: u8, txn_id: i64) -> DeliveryFields {
    DeliveryFields {
        time_created: 1,
        msg_id: vec![id; 32],
        domain,
        destination_mailbox: vec![mailbox; 32],
        destination_tx_id: txn_id,
    }
}

#[test]
fn latest_id_is_the_greatest() {
    assert_eq!(latest_id(&Vec::new()), None);
    assert_eq!(latest_id(&vec![3]), Some(3));
    assert_eq!(latest_id(&vec![3, 9, 4]), Some(9));
    assert_eq!(latest_id(&vec![-5, -2, -7]), Some(-2));
}

#[test]
fn baseline_defaults_to_zero_and_fails_without_an_answer() {
    assert_eq!(baseline_from_query(None), Err(StoreError::Query));
    assert_eq!(baseline_from_query(Some(None)), Ok(0));
    assert_eq!(baseline_from_query(Some(Some(17))), Ok(17));
}

#[test]
fn count_since_counts_beyond_the_baseline_only() {
    assert_eq!(count_since(&Vec::new(), 0), 0);
    assert_eq!(count_since(&vec![1, 2, 3, 4], 0), 4);
    assert_eq!(count_since(&vec![1, 2, 3, 4], 2), 2);
    assert_eq!(count_since(&vec![1, 2, 3, 4], 4), 0);
}

#[test]
fn table_assigns_growing_identifiers() {
    let mut table: StoredTable<DeliveryFields> = StoredTable::new();
    assert_eq!(table.len(), 0);
    let batch = vec![delivery(1, 5, 7, 10), delivery(2, 5, 7, 11), delivery(3, 6, 7, 12)];
    assert_eq!(table.upsert_all(batch), Ok(()));
    assert_eq!(table.len(), 3);
    assert_eq!(table.row(0).id, 1);
    assert_eq!(table.row(1).id, 2);
    assert_eq!(table.row(2).id, 3);
    assert_eq!(table.ids_in_mailbox(5, &vec![7u8; 32]), vec![1, 2]);
    assert_eq!(table.ids_in_mailbox(6, &vec![7u8; 32]), vec![3]);
    assert_eq!(table.ids_in_mailbox(5, &vec![8u8; 32]), Vec::<i64>::new());
}

#[test]
fn table_refreshes_in_place() {
    let mut table: StoredTable<DeliveryFields> = StoredTable::new();
    assert_eq!(table.upsert_all(vec![delivery(1, 5, 7, 10), delivery(2, 5, 7, 11)]), Ok(()));
    assert_eq!(table.find(&delivery(2, 0, 0, 0)), Some(1));
    assert_eq!(table.find(&delivery(3, 5, 7, 0)), None);
    assert_eq!(table.upsert_all(vec![delivery(1, 9, 9, 20), delivery(3, 5, 7, 21)]), Ok(()));
    assert_eq!(table.len(), 3);
    assert_eq!(table.row(0).id, 1);
    assert_eq!(table.row(0).fields.destination_tx_id, 20);
    assert_eq!(table.row(0).fields.domain, 5);
    assert_eq!(table.row(2).id, 3);
}

#[test]
fn steps_of_a_batch_that_is_stored() {
    let first = begin();
    assert_eq!(first.state, IngestState::AwaitingBaseline);
    assert_eq!(first.action, IngestAction::QueryLatest);
    let second = advance(first.state, 2, StoreReply::Latest(Some(Some(41))));
    assert_eq!(second.state, IngestState::AwaitingWrite { baseline: 41 });
    assert_eq!(second.action, IngestAction::Write);
    let third = advance(second.state, 2, StoreReply::Written);
    assert_eq!(third.state, IngestState::AwaitingCount);
    assert_eq!(third.action, IngestAction::CountSince(41));
    let last = advance(third.state, 2, StoreReply::Count(2));
    assert_eq!(last.state, IngestState::Done);
    assert_eq!(last.action, IngestAction::Finish(Ok(2)));
}

#[test]
fn steps_take_zero_as_the_baseline_of_an_empty_mailbox() {
    let second = advance(begin().state, 1, StoreReply::Latest(Some(None)));
    assert_eq!(second.state, IngestState::AwaitingWrite { baseline: 0 });
}

#[test]
fn steps_refuse_an_empty_batch_after_the_baseline() {
    let second = advance(begin().state, 0, StoreReply::Latest(Some(Some(3))));
    assert_eq!(second.state, IngestState::Done);
    assert_eq!(second.action, IngestAction::Finish(Err(StoreError::InvariantViolation)));
}

#[test]
fn steps_end_on_a_failure_of_the_store() {
    let failed = IngestAction::Finish(Err(StoreError::Query));
    assert_eq!(advance(IngestState::AwaitingBaseline, 0, StoreReply::Failed).action, failed);
    assert_eq!(advance(IngestState::AwaitingBaseline, 1, StoreReply::Latest(None)).action, failed);
    assert_eq!(
        advance(IngestState::AwaitingWrite { baseline: 1 }, 1, StoreReply::Failed).action,
        failed
    );
    assert_eq!(advance(IngestState::AwaitingCount, 1, StoreReply::Failed).action, failed);
}

#[test]
fn steps_end_on_a_reply_that_was_not_asked_for() {
    let misused = IngestAction::Finish(Err(StoreError::InvariantViolation));
    assert_eq!(advance(IngestState::AwaitingBaseline, 1, StoreReply::Written).action, misused);
    assert_eq!(
        advance(IngestState::AwaitingWrite { baseline: 1 }, 1, StoreReply::Count(1)).action,
        misused
    );
    assert_eq!(
        advance(IngestState::AwaitingCount, 1, StoreReply::Latest(Some(None))).action,
        misused
    );
    assert_eq!(advance(IngestState::Done, 1, StoreReply::Count(1)).action, misused);
    assert_eq!(advance(IngestState::Done, 1, StoreReply::Failed).action, misused);
}
