//! The delivery task executor: one pass claims a delivery, hands the message
//! to the email gateway, and resolves the delivery by what the gateway says.

use vstd::prelude::*;
use crate::delivery_store::DeliveryStore;
use crate::domain::{
    ClaimedItem, EmailView, GatewayError, IssueId, OutboundEmail, RowView, StoreError,
    Timestamp,
};
use crate::retry_policy::{RetryPolicy, backoff_delay, gives_up, lemma_backoff_is_bounded};
use crate::seq_search::{
    count_where, lemma_count_none, lemma_count_remove, lemma_count_update, lemma_first_index,
};
use crate::store_model::{
    StoreState, eligible_at, holds_claim, lemma_claim_keeps_index, message_for, next_claim,
    row_index,
};

verus! {

/// What one pass of the executor did.
#[derive(Copy, Clone, Debug, PartialEq, Eq, Structural)]
pub enum ExecutionOutcome {
    /// A delivery was claimed and is now resolved for good, delivered or
    /// abandoned.
    TaskCompleted,
    /// A delivery was claimed, failed for now, and waits in the queue for its
    /// next attempt.
    TaskFailed,
    /// No delivery was due.
    EmptyQueue,
}

/// Why a pass of the executor could not resolve its delivery.
#[derive(Copy, Clone, Debug, PartialEq, Eq, Structural)]
pub enum ExecutorError {
    /// The store refused the resolution.
    Store(StoreError),
    /// The time of the next attempt lies beyond the end of the clock.
    RetryTimeOverflow,
}

/// The time of the next attempt for a delivery that had failed `attempts`
/// times and has just failed again at `now`.
pub open spec fn retry_time(policy: RetryPolicy, attempts: u32, now: Timestamp) -> int {
    now + backoff_delay(policy, (attempts + 1) as u32)
}

/// What settling a claimed delivery returns, given what the gateway said.
pub open spec fn settle_result(
    state: StoreState,
    issue_id: IssueId,
    email: Seq<char>,
    attempts: u32,
    sent: Result<(), GatewayError>,
    policy: RetryPolicy,
    now: Timestamp,
) -> Result<ExecutionOutcome, ExecutorError> {
    if !holds_claim(state.rows, issue_id, email) {
        Err(ExecutorError::Store(StoreError::ClaimNotHeld))
    } else {
        match sent {
            Ok(_) => Ok(ExecutionOutcome::TaskCompleted),
            Err(GatewayError::Permanent(_)) => Ok(ExecutionOutcome::TaskCompleted),
            Err(GatewayError::Transient(_)) => if gives_up(policy, attempts) {
                Ok(ExecutionOutcome::TaskCompleted)
            } else if retry_time(policy, attempts, now) > u64::MAX {
                Err(ExecutorError::RetryTimeOverflow)
            } else {
                Ok(ExecutionOutcome::TaskFailed)
            },
        }
    }
}

/// The store after settling a claimed delivery, given what the gateway said.
///
/// A delivered message deletes the row. A permanent failure, or a transient
/// one that uses up the last attempt, dead-letters it. Any other transient
/// failure puts the row back for a later attempt; when that time cannot be
/// represented the claim is given up and the row stays as it was.
pub open spec fn settled(
    state: StoreState,
    issue_id: IssueId,
    email: Seq<char>,
    attempts: u32,
    sent: Result<(), GatewayError>,
    policy: RetryPolicy,
    now: Timestamp,
) -> StoreState {
    if !holds_claim(state.rows, issue_id, email) {
        state
    } else {
        match sent {
            Ok(_) => state.resolved_success(issue_id, email),
            Err(GatewayError::Permanent(e)) => state.resolved_dead_letter(issue_id, email, e@),
            Err(GatewayError::Transient(e)) => if gives_up(policy, attempts) {
                state.resolved_dead_letter(issue_id, email, e@)
            } else if retry_time(policy, attempts, now) > u64::MAX {
                state.released(issue_id, email)
            } else {
                state.resolved_retry(
                    issue_id,
                    email,
                    retry_time(policy, attempts, now) as u64,
                    e@,
                )
            },
        }
    }
}

/// What one pass returns in the given state, should the gateway say `sent`.
pub open spec fn pass_result(
    state: StoreState,
    sent: Result<(), GatewayError>,
    policy: RetryPolicy,
    now: Timestamp,
) -> Result<ExecutionOutcome, ExecutorError> {
    let i = next_claim(state.rows, now);
    if i < state.rows.len() {
        let row = state.rows[i];
        settle_result(state.claimed(i), row.issue_id, row.email, row.attempts, sent, policy, now)
    } else {
        Ok(ExecutionOutcome::EmptyQueue)
    }
}

/// The store after one pass, should the gateway say `sent`.
pub open spec fn after_pass(
    state: StoreState,
    sent: Result<(), GatewayError>,
    policy: RetryPolicy,
    now: Timestamp,
) -> StoreState {
    let i = next_claim(state.rows, now);
    if i < state.rows.len() {
        let row = state.rows[i];
        settled(state.claimed(i), row.issue_id, row.email, row.attempts, sent, policy, now)
    } else {
        state
    }
}

/// Whether a delivery is due at `now`.
pub open spec fn has_work(state: StoreState, now: Timestamp) -> bool {
    next_claim(state.rows, now) < state.rows.len()
}

/// The row that a pass at `now` claims, as it is before the claim.
pub open spec fn due_row(state: StoreState, now: Timestamp) -> RowView
    recommends
        has_work(state, now),
{
    state.rows[next_claim(state.rows, now)]
}

/// The message of the delivery that a pass at `now` claims.
pub open spec fn due_message(state: StoreState, now: Timestamp) -> EmailView {
    message_for(state.issues, due_row(state, now))
}

/// Resolves a claimed delivery by what the gateway said about its message.
pub fn settle_delivery(
    store: &mut DeliveryStore,
    item: &ClaimedItem,
    sent: Result<(), GatewayError>,
    policy: &RetryPolicy,
    now: Timestamp,
) -> (r: Result<ExecutionOutcome, ExecutorError>)
    requires
        old(store).wf(),
    ensures
        final(store).wf(),
        r == settle_result(
            old(store)@,
            item.issue_id,
            item.subscriber_email@,
            item.attempts,
            sent,
            *policy,
            now,
        ),
        final(store)@ == settled(
            old(store)@,
            item.issue_id,
            item.subscriber_email@,
            item.attempts,
            sent,
            *policy,
            now,
        ),
{
    match sent {
        Ok(_) => match store.resolve_success(item) {
            Ok(_) => Ok(ExecutionOutcome::TaskCompleted),
            Err(e) => Err(ExecutorError::Store(e)),
        },
        Err(GatewayError::Permanent(error)) => match store.resolve_dead_letter(item, error) {
            Ok(_) => Ok(ExecutionOutcome::TaskCompleted),
            Err(e) => Err(ExecutorError::Store(e)),
        },
        Err(GatewayError::Transient(error)) => {
            if policy.exhausted_after(item.attempts) {
                match store.resolve_dead_letter(item, error) {
                    Ok(_) => Ok(ExecutionOutcome::TaskCompleted),
                    Err(e) => Err(ExecutorError::Store(e)),
                }
            } else {
                let delay = policy.delay_after(item.attempts + 1);
                if delay > u64::MAX - now {
                    match store.release(item) {
                        Ok(_) => Err(ExecutorError::RetryTimeOverflow),
                        Err(e) => Err(ExecutorError::Store(e)),
                    }
                } else {
                    match store.resolve_retry(item, now + delay, error) {
                        Ok(_) => Ok(ExecutionOutcome::TaskFailed),
                        Err(e) => Err(ExecutorError::Store(e)),
                    }
                }
            }
        },
    }
}

/// Runs one pass of the executor.
///
/// Claims the first delivery that is due at `now`. When there is none the
/// pass ends at once with `EmptyQueue` and nothing has changed. Otherwise the
/// message is rendered from the issue and handed to `gateway` exactly once,
/// and the delivery is resolved as [`settled`] describes for the gateway's
/// answer.
pub fn try_execute_task<G: Fn(OutboundEmail) -> Result<(), GatewayError>>(
    store: &mut DeliveryStore,
    gateway: &G,
    policy: &RetryPolicy,
    now: Timestamp,
) -> (r: Result<ExecutionOutcome, ExecutorError>)
    requires
        old(store).wf(),
        forall|message: OutboundEmail|
            has_work(old(store)@, now) && message@ == due_message(old(store)@, now)
                ==> #[trigger] gateway.requires((message,)),
    ensures
        final(store).wf(),
        !has_work(old(store)@, now) ==> r == Ok::<ExecutionOutcome, ExecutorError>(
            ExecutionOutcome::EmptyQueue,
        ) && final(store)@ == old(store)@,
        has_work(old(store)@, now) ==> exists|
            message: OutboundEmail,
            sent: Result<(), GatewayError>,
        |
            {
                &&& message@ == due_message(old(store)@, now)
                &&& #[trigger] gateway.ensures((message,), sent)
                &&& r == pass_result(old(store)@, sent, *policy, now)
                &&& final(store)@ == after_pass(old(store)@, sent, *policy, now)
            },
{
    let ghost before = store@;
    match store.claim_one(now) {
        None => Ok(ExecutionOutcome::EmptyQueue),
        Some(item) => {
            let ghost i = next_claim(before.rows, now);
            proof {
                lemma_first_index(before.rows, eligible_at(now));
                lemma_claim_keeps_index(before, i);
                assert(store@.rows[i].email == before.rows[i].email);
            }
            let message = store.render(&item);
            let ghost handed = message;
            assert(handed@ == due_message(before, now));
            let sent = gateway(message);
            let r = settle_delivery(store, &item, sent, policy, now);
            proof {
                assert(gateway.ensures((handed,), sent));
                assert(r == pass_result(before, sent, *policy, now));
                assert(store@ == after_pass(before, sent, *policy, now));
            }
            r
        },
    }
}

/// The number of deliveries that are due at `now`.
pub open spec fn due_count(rows: Seq<RowView>, now: Timestamp) -> nat {
    count_where(rows, eligible_at(now))
}

/// A pass that finds work resolves exactly one due delivery: the delivery
/// leaves the queue or stops being due, and nothing else changes. A pass that
/// cannot schedule the retry leaves the store as it found it.
pub proof fn lemma_pass_progress(
    state: StoreState,
    sent: Result<(), GatewayError>,
    policy: RetryPolicy,
    now: Timestamp,
)
    requires
        state.wf(),
        has_work(state, now),
    ensures
        ({
            let r = pass_result(state, sent, policy, now);
            let after = after_pass(state, sent, policy, now);
            &&& after.issues == state.issues
            &&& after.row_limit == state.row_limit
            &&& r == Ok::<ExecutionOutcome, ExecutorError>(ExecutionOutcome::TaskCompleted) || r
                == Ok::<ExecutionOutcome, ExecutorError>(ExecutionOutcome::TaskFailed) || r
                == Err::<ExecutionOutcome, ExecutorError>(ExecutorError::RetryTimeOverflow)
            &&& r == Ok::<ExecutionOutcome, ExecutorError>(ExecutionOutcome::TaskCompleted) ==> {
                &&& after.rows.len() == state.rows.len() - 1
                &&& due_count(after.rows, now) == due_count(state.rows, now) - 1
                &&& state.failures.len() <= after.failures.len() <= state.failures.len() + 1
            }
            &&& r == Ok::<ExecutionOutcome, ExecutorError>(ExecutionOutcome::TaskFailed) ==> {
                &&& after.rows.len() == state.rows.len()
                &&& due_count(after.rows, now) == due_count(state.rows, now) - 1
                &&& after.failures.len() == state.failures.len() + 1
            }
            &&& r is Err ==> after == state
        }),
{
    let due = eligible_at(now);
    let i = next_claim(state.rows, now);
    lemma_first_index(state.rows, due);
    lemma_claim_keeps_index(state, i);
    let row = state.rows[i];
    let held = state.claimed(i);
    assert(row_index(held.rows, row.issue_id, row.email) == i);
    lemma_count_update(state.rows, due, i, held.rows[i]);
    assert(!due(held.rows[i]));
    assert(due(row));
    let after = after_pass(state, sent, policy, now);
    match sent {
        Ok(_) => {
            lemma_count_remove(held.rows, due, i);
        },
        Err(GatewayError::Permanent(_)) => {
            lemma_count_remove(held.rows, due, i);
        },
        Err(GatewayError::Transient(_)) => {
            if gives_up(policy, row.attempts) {
                lemma_count_remove(held.rows, due, i);
            } else if retry_time(policy, row.attempts, now) > u64::MAX {
                assert(after.rows =~= state.rows);
            } else {
                lemma_count_update(held.rows, due, i, after.rows[i]);
                assert(!due(after.rows[i]));
            }
        },
    }
}

/// The store after one pass for each of `answers`, in order.
pub open spec fn after_passes(
    state: StoreState,
    answers: Seq<Result<(), GatewayError>>,
    policy: RetryPolicy,
    now: Timestamp,
) -> StoreState
    decreases answers.len(),
{
    if answers.len() == 0 {
        state
    } else {
        after_pass(
            after_passes(state, answers.drop_last(), policy, now),
            answers.last(),
            policy,
            now,
        )
    }
}

/// Whether `answers` are what `gateway` said in a run of passes from `state`:
/// each pass found work, the gateway gave the answer for the message that was
/// due at that point, and the pass resolved its delivery.
pub open spec fn answers_given<G: Fn(OutboundEmail) -> Result<(), GatewayError>>(
    gateway: &G,
    state: StoreState,
    answers: Seq<Result<(), GatewayError>>,
    policy: RetryPolicy,
    now: Timestamp,
) -> bool {
    forall|k: int|
        0 <= k < answers.len() ==> {
            let reached = #[trigger] after_passes(state, answers.take(k), policy, now);
            &&& has_work(reached, now)
            &&& pass_result(reached, answers[k], policy, now) is Ok
            &&& exists|message: OutboundEmail|
                message@ == due_message(reached, now) && #[trigger] gateway.ensures(
                    (message,),
                    answers[k],
                )
        }
}

/// How a drain went: the number of passes that resolved a delivery for good,
/// and the number that put one back for a later attempt.
#[derive(Copy, Clone, Debug, PartialEq, Eq, Structural)]
pub struct DrainSummary {
    pub completed: usize,
    pub failed: usize,
}

/// Runs passes at time `now` until one finds the queue without work.
///
/// Every delivery that was due at the start is attempted exactly once: it is
/// either resolved for good or put back for a time after `now`. The drain
/// stops early, with the error, at a pass that cannot schedule its retry.
pub fn dispatch_all_pending_emails<G: Fn(OutboundEmail) -> Result<(), GatewayError>>(
    store: &mut DeliveryStore,
    gateway: &G,
    policy: &RetryPolicy,
    now: Timestamp,
) -> (r: Result<DrainSummary, ExecutorError>)
    requires
        old(store).wf(),
        forall|message: OutboundEmail| #[trigger] gateway.requires((message,)),
    ensures
        final(store).wf(),
        final(store)@.issues == old(store)@.issues,
        final(store)@.row_limit == old(store)@.row_limit,
        exists|answers: Seq<Result<(), GatewayError>>|
            {
                &&& final(store)@ == #[trigger] after_passes(old(store)@, answers, *policy, now)
                &&& answers_given(gateway, old(store)@, answers, *policy, now)
                &&& r is Ok ==> answers.len() == r->Ok_0.completed + r->Ok_0.failed
            },
        match r {
            Ok(summary) => {
                &&& !has_work(final(store)@, now)
                &&& summary.completed + summary.failed == due_count(old(store)@.rows, now)
                &&& final(store)@.rows.len() + summary.completed == old(store)@.rows.len()
                &&& old(store)@.failures.len() + summary.failed <= final(store)@.failures.len()
                    <= old(store)@.failures.len() + summary.failed + summary.completed
            },
            Err(e) => {
                &&& e == ExecutorError::RetryTimeOverflow
                &&& has_work(final(store)@, now)
                &&& exists|message: OutboundEmail, sent: Result<(), GatewayError>|
                    {
                        &&& message@ == due_message(final(store)@, now)
                        &&& #[trigger] gateway.ensures((message,), sent)
                        &&& pass_result(final(store)@, sent, *policy, now) == Err::<
                            ExecutionOutcome,
                            ExecutorError,
                        >(e)
                    }
            },
        },
        now < u64::MAX && now + policy.max_delay <= u64::MAX ==> r is Ok,
{
    let mut completed: usize = 0;
    let mut failed: usize = 0;
    let ghost mut answers: Seq<Result<(), GatewayError>> = Seq::empty();
    proof {
        lemma_count_none(old(store)@.rows, eligible_at(now));
    }
    loop
        invariant
            store.wf(),
            store@ == after_passes(old(store)@, answers, *policy, now),
            answers_given(gateway, old(store)@, answers, *policy, now),
            answers.len() == completed + failed,
            forall|message: OutboundEmail| #[trigger] gateway.requires((message,)),
            store@.issues == old(store)@.issues,
            store@.row_limit == old(store)@.row_limit,
            completed + failed + due_count(store@.rows, now) == due_count(old(store)@.rows, now),
            store@.rows.len() + completed == old(store)@.rows.len(),
            old(store)@.failures.len() + failed <= store@.failures.len() <= old(
                store,
            )@.failures.len() + failed + completed,
            due_count(old(store)@.rows, now) <= old(store)@.rows.len() <= usize::MAX,
        decreases due_count(store@.rows, now),
    {
        let ghost before = store@;
        let r = try_execute_task(store, gateway, policy, now);
        proof {
            if has_work(before, now) {
                let (message, sent) = choose|
                    message: OutboundEmail,
                    sent: Result<(), GatewayError>,
                |
                    {
                        &&& message@ == due_message(before, now)
                        &&& #[trigger] gateway.ensures((message,), sent)
                        &&& r == pass_result(before, sent, *policy, now)
                        &&& store@ == after_pass(before, sent, *policy, now)
                    };
                lemma_pass_progress(before, sent, *policy, now);
                lemma_backoff_is_bounded(*policy, (due_row(before, now).attempts + 1) as u32);
                if r is Ok {
                    let longer = answers.push(sent);
                    assert(longer.drop_last() =~= answers);
                    assert(longer.take(answers.len() as int) =~= answers);
                    assert forall|k: int| 0 <= k < longer.len() implies {
                        let reached = #[trigger] after_passes(
                            old(store)@,
                            longer.take(k),
                            *policy,
                            now,
                        );
                        &&& has_work(reached, now)
                        &&& pass_result(reached, longer[k], *policy, now) is Ok
                        &&& exists|m: OutboundEmail|
                            m@ == due_message(reached, now) && #[trigger] gateway.ensures(
                                (m,),
                                longer[k],
                            )
                    } by {
                        if k < answers.len() {
                            assert(longer.take(k) =~= answers.take(k));
                            let reached = after_passes(old(store)@, answers.take(k), *policy, now);
                            assert(has_work(reached, now));
                        } else {
                            assert(gateway.ensures((message,), longer[k]));
                        }
                    }
                    answers = longer;
                }
            } else {
                lemma_first_index(before.rows, eligible_at(now));
                lemma_count_none(before.rows, eligible_at(now));
            }
        }
        match r {
            Ok(ExecutionOutcome::EmptyQueue) => {
                return Ok(DrainSummary { completed, failed });
            },
            Ok(ExecutionOutcome::TaskCompleted) => {
                completed += 1;
            },
            Ok(ExecutionOutcome::TaskFailed) => {
                failed += 1;
            },
            Err(e) => {
                return Err(e);
            },
        }
    }
}

} // verus!
