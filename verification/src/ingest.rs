//! The steps by which a batch is stored in a store that is reached by
//! queries: what to ask next, given what the store answered last. Whoever
//! talks to the store performs each action and hands back the reply.

use crate::error::StoreError;
use crate::table::{lemma_rows_bound, lemma_upsert_all, Entry, Table};
use crate::watermark::{
    baseline_from_query, baseline_of, lemma_baseline_bounds, lemma_count_above,
    lemma_ids_in_mailbox,
};
use vstd::prelude::*;

verus! {

/// How far the storing of a batch has come.
#[derive(Clone, Copy, Debug, PartialEq, Eq)]
pub enum IngestState {
    /// The greatest identifier of the mailbox was asked for.
    AwaitingBaseline,
    /// The batch was handed to the store.
    AwaitingWrite {
        /// The baseline taken before the write.
        baseline: i64,
    },
    /// The rows beyond the baseline are being counted.
    AwaitingCount,
    /// The batch is stored, or was given up.
    Done,
}

/// What the store answered to the last action.
#[derive(Clone, Copy, Debug, PartialEq, Eq)]
pub enum StoreReply {
    /// The answer to the query for the greatest identifier of the mailbox:
    /// the row that the query returned, if it returned one, and in it the
    /// maximum, if any row of the mailbox was there to have one.
    Latest(Option<Option<i64>>),
    /// The batch was written.
    Written,
    /// The number of rows of the mailbox beyond the baseline.
    Count(u64),
    /// The store could not carry out the action.
    Failed,
}

/// What to do next.
#[derive(Clone, Copy, Debug, PartialEq, Eq)]
pub enum IngestAction {
    /// Ask for the greatest identifier among the rows of the mailbox.
    QueryLatest,
    /// Write the batch, inserting or refreshing by key.
    Write,
    /// Count the rows of the mailbox whose identifier lies beyond this one.
    CountSince(i64),
    /// Stop, with this result.
    Finish(Result<u64, StoreError>),
}

/// A state and the action that leads on from it.
#[derive(Clone, Copy, Debug, PartialEq, Eq)]
pub struct IngestStep {
    /// The state that was reached.
    pub state: IngestState,
    /// What to do in it.
    pub action: IngestAction,
}

/// The first step: the baseline is asked for before anything is written.
pub open spec fn spec_begin() -> IngestStep {
    IngestStep { state: IngestState::AwaitingBaseline, action: IngestAction::QueryLatest }
}

/// The end of an operation with `result`.
pub open spec fn spec_finish(result: Result<u64, StoreError>) -> IngestStep {
    IngestStep { state: IngestState::Done, action: IngestAction::Finish(result) }
}

/// The step that follows `state` when the store answered `reply`, for a
/// batch of `batch_len` rows.
///
/// A failure of the store ends the operation with a query error. A
/// baseline ends it with the refusal of the batch where the batch is empty,
/// and leads to the write otherwise; the write leads to the count beyond
/// that baseline, and the count is the result. A reply that does not answer
/// what was asked ends the operation as a broken rule of the interface.
pub open spec fn spec_advance(state: IngestState, batch_len: nat, reply: StoreReply) -> IngestStep {
    match (state, reply) {
        (IngestState::Done, _) => spec_finish(Err(StoreError::InvariantViolation)),
        (_, StoreReply::Failed) => spec_finish(Err(StoreError::Query)),
        (IngestState::AwaitingBaseline, StoreReply::Latest(None)) => spec_finish(
            Err(StoreError::Query),
        ),
        (IngestState::AwaitingBaseline, StoreReply::Latest(Some(latest))) => if batch_len == 0 {
            spec_finish(Err(StoreError::InvariantViolation))
        } else {
            let baseline = match latest {
                Some(id) => id,
                None => 0i64,
            };
            IngestStep {
                state: IngestState::AwaitingWrite { baseline },
                action: IngestAction::Write,
            }
        },
        (IngestState::AwaitingWrite { baseline }, StoreReply::Written) => IngestStep {
            state: IngestState::AwaitingCount,
            action: IngestAction::CountSince(baseline),
        },
        (IngestState::AwaitingCount, StoreReply::Count(count)) => spec_finish(Ok(count)),
        _ => spec_finish(Err(StoreError::InvariantViolation)),
    }
}

/// The first step of storing a batch.
pub fn begin() -> (step: IngestStep)
    ensures
        step == spec_begin(),
{
    IngestStep { state: IngestState::AwaitingBaseline, action: IngestAction::QueryLatest }
}

/// The step that follows `state` when the store answered `reply`, for a
/// batch of `batch_len` rows.
pub fn advance(state: IngestState, batch_len: usize, reply: StoreReply) -> (step: IngestStep)
    ensures
        step == spec_advance(state, batch_len as nat, reply),
{
    let failed = IngestStep {
        state: IngestState::Done,
        action: IngestAction::Finish(Err(StoreError::Query)),
    };
    let misused = IngestStep {
        state: IngestState::Done,
        action: IngestAction::Finish(Err(StoreError::InvariantViolation)),
    };
    match state {
        IngestState::Done => misused,
        IngestState::AwaitingBaseline => match reply {
            StoreReply::Failed => failed,
            StoreReply::Latest(answer) => match baseline_from_query(answer) {
                Err(e) => IngestStep { state: IngestState::Done, action: IngestAction::Finish(Err(e)) },
                Ok(baseline) => if batch_len == 0 {
                    misused
                } else {
                    IngestStep {
                        state: IngestState::AwaitingWrite { baseline },
                        action: IngestAction::Write,
                    }
                },
            },
            _ => misused,
        },
        IngestState::AwaitingWrite { baseline } => match reply {
            StoreReply::Failed => failed,
            StoreReply::Written => IngestStep {
                state: IngestState::AwaitingCount,
                action: IngestAction::CountSince(baseline),
            },
            _ => misused,
        },
        IngestState::AwaitingCount => match reply {
            StoreReply::Failed => failed,
            StoreReply::Count(count) => IngestStep {
                state: IngestState::Done,
                action: IngestAction::Finish(Ok(count)),
            },
            _ => misused,
        },
    }
}

/// The identifier that a query for the maximum returns, as the store has it.
pub open spec fn as_answer(latest: Option<int>) -> Option<i64> {
    match latest {
        Some(id) => Some(id as i64),
        None => None,
    }
}

/// Run against a store that behaves as a table does, the steps ask for the
/// baseline, write the batch, count beyond that baseline, and end with the
/// number of rows that the batch added to the mailbox: the count that the
/// table gives after the batch for the baseline that it gave before.
pub proof fn lemma_steps_over_table<E: Entry>(
    before: Table<E>,
    writes: Seq<E>,
    domain: u32,
    mailbox: Seq<u8>,
)
    requires
        before.wf(),
        writes.len() > 0,
        before.upsert_all(writes).last_id <= i64::MAX,
    ensures
        ({
            let after = before.upsert_all(writes);
            let count = after.count_since(domain, mailbox, before.baseline(domain, mailbox));
            let first = spec_begin();
            let second = spec_advance(
                first.state,
                writes.len(),
                StoreReply::Latest(Some(as_answer(before.latest_id(domain, mailbox)))),
            );
            let third = spec_advance(second.state, writes.len(), StoreReply::Written);
            let last = spec_advance(third.state, writes.len(), StoreReply::Count(count as u64));
            &&& first.action == IngestAction::QueryLatest
            &&& second.action == IngestAction::Write
            &&& third.action == IngestAction::CountSince(before.baseline(domain, mailbox) as i64)
            &&& before.baseline(domain, mailbox) as i64 == before.baseline(domain, mailbox)
            &&& last == spec_finish(Ok(count as u64))
            &&& count as u64 == count
        }),
{
    let after = before.upsert_all(writes);
    lemma_upsert_all(before, writes);
    lemma_rows_bound(after);
    lemma_baseline_bounds(before, domain, mailbox);
    lemma_count_above(
        after.ids_in_mailbox(domain, mailbox),
        before.baseline(domain, mailbox),
    );
    lemma_ids_in_mailbox(after.rows, domain, mailbox);
    assert(before.baseline(domain, mailbox) == baseline_of(before.latest_id(domain, mailbox)));
}

/// Whatever the store answers, a step taken after the end is the end, and
/// a failure of the store ends the operation with a query error.
pub proof fn lemma_steps_end(state: IngestState, batch_len: nat, reply: StoreReply)
    ensures
        state == IngestState::Done ==> spec_advance(state, batch_len, reply).state
            == IngestState::Done,
        state != IngestState::Done && reply == StoreReply::Failed ==> spec_advance(
            state,
            batch_len,
            reply,
        ) == spec_finish(Err(StoreError::Query)),
        spec_advance(state, batch_len, reply).action is Finish <==> spec_advance(
            state,
            batch_len,
            reply,
        ).state == IngestState::Done,
{
}

} // verus!
