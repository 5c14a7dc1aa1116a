//! What publication and delivery guarantee, stated over the store's
//! mathematical state and proved from the transitions the operations make.

use vstd::prelude::*;
use crate::domain::{
    FailureDisposition, GatewayError, IssueId, IssueView, LoggedFailure, PublishError, RowView,
    Subscriber, Timestamp,
};
use crate::issue_delivery_worker::{
    ExecutionOutcome, ExecutorError, after_pass, due_row, has_work, pass_result, retry_time,
};
use crate::retry_policy::{RetryPolicy, gives_up};
use crate::seq_search::{count_where, lemma_count_remove, lemma_count_update, lemma_first_index};
use crate::store_model::{
    StoreState, confirmed_emails, distinct_issue_ids, eligible_at, emails_owed, enqueue_all,
    has_issue, has_row, lemma_claim_keeps_index, lemma_emails_owed, lemma_enqueue_all,
    lemma_enqueue_all_fresh, lemma_enqueue_all_present, lemma_enqueue_all_rows, lemma_has_issue_push, lemma_issue_index,
    lemma_remove_row, lemma_row_index, lemma_same_keys, next_claim,
};

verus! {

/// A successful publication leaves a well-formed store that holds the issue
/// and has a row for every address it was published to. It adds rows for that
/// issue and those addresses only, and leaves every earlier row as it was.
pub proof fn lemma_publish_keeps_store_consistent(
    state: StoreState,
    issue: IssueView,
    emails: Seq<Seq<char>>,
)
    requires
        state.wf(),
        state.publish_result(issue, emails) is Ok,
    ensures
        state.published(issue, emails).wf(),
        has_issue(state.published(issue, emails).issues, issue.id),
        !state.published(issue, emails).conflicts(issue),
        forall|k: int|
            0 <= k < emails.len() ==> has_row(
                state.published(issue, emails).rows,
                issue.id,
                #[trigger] emails[k],
            ),
        forall|id: IssueId, e: Seq<char>| #[trigger]
            has_row(state.published(issue, emails).rows, id, e) <==> has_row(state.rows, id, e)
                || (id == issue.id && emails.contains(e)),
        forall|i: int|
            0 <= i < state.rows.len() ==> state.published(issue, emails).rows[i]
                == #[trigger] state.rows[i],
{
    let after = state.published(issue, emails);
    lemma_enqueue_all(state.rows, issue.id, emails);
    lemma_enqueue_all_rows(state.rows, issue.id, emails);
    assert forall|i: int| 0 <= i < state.rows.len() implies after.rows[i]
        == #[trigger] state.rows[i] by {
        assert(after.rows.take(state.rows.len() as int)[i] == after.rows[i]);
    }
    lemma_issue_index(state.issues, issue.id);
    lemma_has_issue_push(state.issues, issue, issue.id);
    if !has_issue(state.issues, issue.id) {
        let grown = state.issues.push(issue);
        assert forall|i: int, j: int|
            #![trigger grown[i], grown[j]]
            0 <= i < j < grown.len() implies grown[i].id != grown[j].id by {
            if j == state.issues.len() {
                assert(grown[i] == state.issues[i]);
            }
        }
        assert(distinct_issue_ids(after.issues));
    }
    assert forall|i: int| 0 <= i < after.rows.len() implies has_issue(
        after.issues,
        (#[trigger] after.rows[i]).issue_id,
    ) by {
        if i < state.rows.len() {
            assert(after.rows.take(state.rows.len() as int)[i] == after.rows[i]);
            lemma_has_issue_push(state.issues, issue, state.rows[i].issue_id);
        }
    }
}

/// Right after an issue is published to `N` confirmed subscribers with
/// distinct addresses, the queue owes the issue to exactly those `N`
/// addresses: one row each, in the order of the subscribers, provided the
/// queue owed the issue to nobody before.
pub proof fn lemma_publish_enqueues_each_confirmed_subscriber_once(
    state: StoreState,
    issue: IssueView,
    subscribers: Seq<Subscriber>,
)
    requires
        state.wf(),
        emails_owed(state.rows, issue.id).len() == 0,
        confirmed_emails(subscribers).no_duplicates(),
        state.publish_result(issue, confirmed_emails(subscribers)) is Ok,
    ensures
        emails_owed(state.published(issue, confirmed_emails(subscribers)).rows, issue.id)
            == confirmed_emails(subscribers),
        state.published(issue, confirmed_emails(subscribers)).rows.len() == state.rows.len()
            + confirmed_emails(subscribers).len(),
{
    lemma_enqueue_all_fresh(state.rows, issue.id, confirmed_emails(subscribers));
}

/// A store that does not hold an issue owes it to nobody.
pub proof fn lemma_unpublished_issue_is_owed_to_nobody(state: StoreState, issue: IssueView)
    requires
        state.wf(),
        !has_issue(state.issues, issue.id),
    ensures
        emails_owed(state.rows, issue.id).len() == 0,
{
    let owed = emails_owed(state.rows, issue.id);
    lemma_emails_owed(state.rows, issue.id);
    if owed.len() > 0 {
        assert(owed.contains(owed[0]));
        assert(has_row(state.rows, issue.id, owed[0]));
        lemma_row_index(state.rows, issue.id, owed[0]);
    }
}

/// Publishing the same issue to the same subscribers a second time succeeds
/// and changes nothing: no row is added.
pub proof fn lemma_publish_again_changes_nothing(
    state: StoreState,
    issue: IssueView,
    subscribers: Seq<Subscriber>,
)
    requires
        state.wf(),
        state.publish_result(issue, confirmed_emails(subscribers)) is Ok,
    ensures
        ({
            let emails = confirmed_emails(subscribers);
            let once = state.published(issue, emails);
            &&& once.publish_result(issue, emails) == Ok::<IssueId, PublishError>(
                issue.id,
            )
            &&& once.published(issue, emails) == once
        }),
{
    let emails = confirmed_emails(subscribers);
    let once = state.published(issue, emails);
    lemma_publish_keeps_store_consistent(state, issue, emails);
    lemma_enqueue_all_present(once.rows, issue.id, emails);
}

/// Enqueuing the same addresses for the same issue twice is the same as
/// enqueuing them once.
pub proof fn lemma_enqueue_again_changes_nothing(
    rows: Seq<RowView>,
    issue_id: IssueId,
    emails: Seq<Seq<char>>,
)
    ensures
        enqueue_all(enqueue_all(rows, issue_id, emails), issue_id, emails) == enqueue_all(
            rows,
            issue_id,
            emails,
        ),
{
    lemma_enqueue_all(rows, issue_id, emails);
    lemma_enqueue_all_present(enqueue_all(rows, issue_id, emails), issue_id, emails);
}

/// A transient gateway failure that does not use up the last attempt leaves
/// the delivery's row in its place, with one more attempt counted, due at a
/// time after `now`, unclaimed, and with the error noted; the failure is
/// logged once. It holds whenever the time of the next attempt fits the clock.
pub proof fn lemma_transient_failure_keeps_the_row(
    state: StoreState,
    error: String,
    policy: RetryPolicy,
    now: Timestamp,
)
    requires
        state.wf(),
        has_work(state, now),
        !gives_up(policy, due_row(state, now).attempts),
        retry_time(policy, due_row(state, now).attempts, now) <= u64::MAX,
    ensures
        ({
            let sent = Err::<(), GatewayError>(GatewayError::Transient(error));
            let i = next_claim(state.rows, now);
            let row = state.rows[i];
            let after = after_pass(state, sent, policy, now);
            &&& pass_result(state, sent, policy, now) == Ok::<ExecutionOutcome, ExecutorError>(
                ExecutionOutcome::TaskFailed,
            )
            &&& after.rows.len() == state.rows.len()
            &&& has_row(after.rows, row.issue_id, row.email)
            &&& after.rows[i] == RowView {
                attempts: (row.attempts + 1) as u32,
                next_eligible_at: retry_time(policy, row.attempts, now) as u64,
                last_error: Some(error@),
                claimed: false,
                ..row
            }
            &&& after.rows[i].attempts == row.attempts + 1
            &&& after.rows[i].next_eligible_at > now
            &&& forall|j: int| 0 <= j < state.rows.len() && j != i ==> after.rows[j] == state.rows[j]
            &&& after.failures == state.failures.push(
                LoggedFailure {
                    issue_id: row.issue_id,
                    email: row.email,
                    error: error@,
                    disposition: FailureDisposition::Retry,
                },
            )
            &&& after.issues == state.issues
        }),
{
    let i = next_claim(state.rows, now);
    lemma_first_index(state.rows, eligible_at(now));
    lemma_claim_keeps_index(state, i);
    let row = state.rows[i];
    let after = after_pass(state, Err::<(), GatewayError>(GatewayError::Transient(error)), policy, now);
    lemma_same_keys(after.rows, state.rows, row.issue_id, row.email);
}

/// A permanent gateway failure, or a failure of the last attempt the policy
/// allows, removes the delivery's row and logs exactly one entry, which names
/// the issue, the subscriber and the error.
pub proof fn lemma_final_failure_removes_the_row(
    state: StoreState,
    failure: GatewayError,
    policy: RetryPolicy,
    now: Timestamp,
)
    requires
        state.wf(),
        has_work(state, now),
        failure is Permanent || gives_up(policy, due_row(state, now).attempts),
    ensures
        ({
            let sent = Err::<(), GatewayError>(failure);
            let i = next_claim(state.rows, now);
            let row = state.rows[i];
            let after = after_pass(state, sent, policy, now);
            let error = match failure {
                GatewayError::Permanent(e) => e@,
                GatewayError::Transient(e) => e@,
            };
            &&& pass_result(state, sent, policy, now) == Ok::<ExecutionOutcome, ExecutorError>(
                ExecutionOutcome::TaskCompleted,
            )
            &&& after.rows == state.rows.remove(i)
            &&& !has_row(after.rows, row.issue_id, row.email)
            &&& after.failures == state.failures.push(
                LoggedFailure {
                    issue_id: row.issue_id,
                    email: row.email,
                    error,
                    disposition: FailureDisposition::DeadLetter,
                },
            )
            &&& after.issues == state.issues
        }),
{
    let i = next_claim(state.rows, now);
    lemma_first_index(state.rows, eligible_at(now));
    lemma_claim_keeps_index(state, i);
    let after = after_pass(state, Err::<(), GatewayError>(failure), policy, now);
    assert(after.rows =~= state.rows.remove(i));
    lemma_remove_row(state.rows, i);
}

/// A delivered message removes the delivery's row and logs nothing.
pub proof fn lemma_delivery_removes_the_row(state: StoreState, policy: RetryPolicy, now: Timestamp)
    requires
        state.wf(),
        has_work(state, now),
    ensures
        ({
            let sent = Ok::<(), GatewayError>(());
            let i = next_claim(state.rows, now);
            let after = after_pass(state, sent, policy, now);
            &&& pass_result(state, sent, policy, now) == Ok::<ExecutionOutcome, ExecutorError>(
                ExecutionOutcome::TaskCompleted,
            )
            &&& after.rows == state.rows.remove(i)
            &&& !has_row(after.rows, state.rows[i].issue_id, state.rows[i].email)
            &&& after.failures == state.failures
            &&& after.issues == state.issues
        }),
{
    let i = next_claim(state.rows, now);
    lemma_first_index(state.rows, eligible_at(now));
    lemma_claim_keeps_index(state, i);
    let after = after_pass(state, Ok::<(), GatewayError>(()), policy, now);
    assert(after.rows =~= state.rows.remove(i));
    lemma_remove_row(state.rows, i);
}

/// The rows that some executor holds.
pub open spec fn is_held() -> spec_fn(RowView) -> bool {
    |r: RowView| r.claimed
}

/// A pass holds no delivery once it has returned: whatever the gateway said,
/// as many rows are claimed after the pass as were before it. A worker that
/// stops between two passes therefore leaves no row locked.
pub proof fn lemma_pass_leaves_no_claim_behind(
    state: StoreState,
    sent: Result<(), GatewayError>,
    policy: RetryPolicy,
    now: Timestamp,
)
    requires
        state.wf(),
    ensures
        count_where(after_pass(state, sent, policy, now).rows, is_held()) == count_where(
            state.rows,
            is_held(),
        ),
{
    if has_work(state, now) {
        let i = next_claim(state.rows, now);
        lemma_first_index(state.rows, eligible_at(now));
        lemma_claim_keeps_index(state, i);
        let held = state.claimed(i);
        let after = after_pass(state, sent, policy, now);
        lemma_count_update(state.rows, is_held(), i, held.rows[i]);
        assert(!is_held()(state.rows[i]));
        assert(is_held()(held.rows[i]));
        if after.rows.len() < state.rows.len() {
            assert(after.rows =~= held.rows.remove(i));
            lemma_count_remove(held.rows, is_held(), i);
        } else {
            assert(after.rows =~= held.rows.update(i, after.rows[i]));
            lemma_count_update(held.rows, is_held(), i, after.rows[i]);
            assert(!is_held()(after.rows[i]));
        }
    }
}

} // verus!
