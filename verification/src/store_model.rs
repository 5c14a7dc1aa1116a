//! The delivery store as a mathematical state, and the transitions that the
//! store's operations make on it.

use vstd::prelude::*;
use crate::domain::{
    EmailView, FailureDisposition, LoggedFailure, IssueId, IssueView, PublishError, RowView, StoreError,
    Subscriber, SubscriberStatus, Timestamp,
};
use crate::seq_search::{first_index, lemma_first_index, lemma_first_index_is};

verus! {

/// Mathematical state of a delivery store.
pub ghost struct StoreState {
    /// Every issue published so far, oldest first.
    pub issues: Seq<IssueView>,
    /// The pending deliveries, in the order they were enqueued.
    pub rows: Seq<RowView>,
    /// One entry per failed delivery attempt, oldest first.
    pub failures: Seq<LoggedFailure>,
    /// The largest number of rows the queue may hold.
    pub row_limit: usize,
}

/// The rows that pair the given issue with the given subscriber.
pub open spec fn key_is(issue_id: IssueId, email: Seq<char>) -> spec_fn(RowView) -> bool {
    |r: RowView| r.issue_id == issue_id && r.email == email
}

/// Index of the row for the pairing, or the number of rows when there is none.
pub open spec fn row_index(rows: Seq<RowView>, issue_id: IssueId, email: Seq<char>) -> int {
    first_index(rows, key_is(issue_id, email))
}

/// Whether a row exists for the pairing.
pub open spec fn has_row(rows: Seq<RowView>, issue_id: IssueId, email: Seq<char>) -> bool {
    row_index(rows, issue_id, email) < rows.len()
}

/// The issues with the given identity.
pub open spec fn issue_is(id: IssueId) -> spec_fn(IssueView) -> bool {
    |i: IssueView| i.id == id
}

/// Index of the issue with the given identity, or the number of issues when
/// there is none.
pub open spec fn issue_index(issues: Seq<IssueView>, id: IssueId) -> int {
    first_index(issues, issue_is(id))
}

/// Whether an issue with the given identity is held.
pub open spec fn has_issue(issues: Seq<IssueView>, id: IssueId) -> bool {
    issue_index(issues, id) < issues.len()
}

/// No two rows pair the same issue with the same subscriber.
pub open spec fn distinct_keys(rows: Seq<RowView>) -> bool {
    forall|i: int, j: int|
        #![trigger rows[i], rows[j]]
        0 <= i < j < rows.len() ==> !(rows[i].issue_id == rows[j].issue_id && rows[i].email
            == rows[j].email)
}

/// No two issues share an identity.
pub open spec fn distinct_issue_ids(issues: Seq<IssueView>) -> bool {
    forall|i: int, j: int|
        #![trigger issues[i], issues[j]]
        0 <= i < j < issues.len() ==> issues[i].id != issues[j].id
}

/// A row as it is first enqueued: never attempted, unclaimed, eligible at once.
pub open spec fn fresh_row(issue_id: IssueId, email: Seq<char>) -> RowView {
    RowView {
        issue_id,
        email,
        attempts: 0,
        next_eligible_at: 0,
        last_error: None,
        claimed: false,
    }
}

/// The rows after enqueuing one pairing: an existing row is left as it is.
pub open spec fn enqueue_one(rows: Seq<RowView>, issue_id: IssueId, email: Seq<char>) -> Seq<
    RowView,
> {
    if has_row(rows, issue_id, email) {
        rows
    } else {
        rows.push(fresh_row(issue_id, email))
    }
}

/// The rows after enqueuing the issue for each of `emails`, in order.
pub open spec fn enqueue_all(rows: Seq<RowView>, issue_id: IssueId, emails: Seq<Seq<char>>) -> Seq<
    RowView,
>
    decreases emails.len(),
{
    if emails.len() == 0 {
        rows
    } else {
        enqueue_one(enqueue_all(rows, issue_id, emails.drop_last()), issue_id, emails.last())
    }
}

/// The addresses of the confirmed subscribers, in order.
pub open spec fn confirmed_emails(subscribers: Seq<Subscriber>) -> Seq<Seq<char>>
    decreases subscribers.len(),
{
    if subscribers.len() == 0 {
        Seq::empty()
    } else {
        let rest = confirmed_emails(subscribers.drop_last());
        if subscribers.last().status == SubscriberStatus::Confirmed {
            rest.push(subscribers.last().email@)
        } else {
            rest
        }
    }
}

/// The addresses that the queue owes the given issue to, in queue order.
pub open spec fn emails_owed(rows: Seq<RowView>, issue_id: IssueId) -> Seq<Seq<char>>
    decreases rows.len(),
{
    if rows.len() == 0 {
        Seq::empty()
    } else {
        let rest = emails_owed(rows.drop_last(), issue_id);
        if rows.last().issue_id == issue_id {
            rest.push(rows.last().email)
        } else {
            rest
        }
    }
}

/// The rows that may be claimed at time `now`: unclaimed and due.
pub open spec fn eligible_at(now: Timestamp) -> spec_fn(RowView) -> bool {
    |r: RowView| !r.claimed && r.next_eligible_at <= now
}

/// Index of the row that a claim at time `now` takes, or the number of rows
/// when none may be claimed.
pub open spec fn next_claim(rows: Seq<RowView>, now: Timestamp) -> int {
    first_index(rows, eligible_at(now))
}

/// Whether the row for the pairing exists and is claimed.
pub open spec fn holds_claim(rows: Seq<RowView>, issue_id: IssueId, email: Seq<char>) -> bool {
    has_row(rows, issue_id, email) && rows[row_index(rows, issue_id, email)].claimed
}

/// The message that delivers the row's issue to the row's subscriber.
pub open spec fn message_for(issues: Seq<IssueView>, row: RowView) -> EmailView {
    let issue = issues[issue_index(issues, row.issue_id)];
    EmailView {
        recipient: row.email,
        subject: issue.title,
        html_body: issue.html_body,
        text_body: issue.text_body,
    }
}

/// The attempt count after one more failure; it stops at the largest value.
pub open spec fn bumped(attempts: u32) -> u32 {
    if attempts < u32::MAX {
        (attempts + 1) as u32
    } else {
        attempts
    }
}

impl StoreState {
    /// The state of a store that holds nothing yet.
    pub open spec fn empty(row_limit: usize) -> StoreState {
        StoreState {
            issues: Seq::empty(),
            rows: Seq::empty(),
            failures: Seq::empty(),
            row_limit,
        }
    }

    /// The invariant of a store: pairings and issue identities are unique,
    /// every row belongs to a held issue, and the queue is within its limit.
    pub open spec fn wf(self) -> bool {
        &&& distinct_keys(self.rows)
        &&& distinct_issue_ids(self.issues)
        &&& forall|i: int|
            0 <= i < self.rows.len() ==> has_issue(self.issues, (#[trigger] self.rows[i]).issue_id)
        &&& self.rows.len() <= self.row_limit
    }

    /// The state after the issue was enqueued for each of `emails`.
    pub open spec fn enqueued(self, issue_id: IssueId, emails: Seq<Seq<char>>) -> StoreState {
        StoreState { rows: enqueue_all(self.rows, issue_id, emails), ..self }
    }

    /// The state after the row at index `i` was claimed.
    pub open spec fn claimed(self, i: int) -> StoreState {
        StoreState { rows: self.rows.update(i, RowView { claimed: true, ..self.rows[i] }), ..self }
    }

    /// The state after the claim on the pairing was given up with the row
    /// unchanged.
    pub open spec fn released(self, issue_id: IssueId, email: Seq<char>) -> StoreState {
        let i = row_index(self.rows, issue_id, email);
        StoreState { rows: self.rows.update(i, RowView { claimed: false, ..self.rows[i] }), ..self }
    }

    /// The state after the pairing was delivered: its row is gone.
    pub open spec fn resolved_success(self, issue_id: IssueId, email: Seq<char>) -> StoreState {
        StoreState { rows: self.rows.remove(row_index(self.rows, issue_id, email)), ..self }
    }

    /// The state after the pairing was put back for another attempt at
    /// `retry_at`: one more attempt is counted, the error is noted on the row
    /// and logged, and the claim is given up.
    pub open spec fn resolved_retry(
        self,
        issue_id: IssueId,
        email: Seq<char>,
        retry_at: Timestamp,
        error: Seq<char>,
    ) -> StoreState {
        let i = row_index(self.rows, issue_id, email);
        StoreState {
            rows: self.rows.update(
                i,
                RowView {
                    attempts: bumped(self.rows[i].attempts),
                    next_eligible_at: retry_at,
                    last_error: Some(error),
                    claimed: false,
                    ..self.rows[i]
                },
            ),
            failures: self.failures.push(
                LoggedFailure { issue_id, email, error, disposition: FailureDisposition::Retry },
            ),
            ..self
        }
    }

    /// The state after the pairing was abandoned: the failure is logged and
    /// the row is gone.
    pub open spec fn resolved_dead_letter(
        self,
        issue_id: IssueId,
        email: Seq<char>,
        error: Seq<char>,
    ) -> StoreState {
        StoreState {
            rows: self.rows.remove(row_index(self.rows, issue_id, email)),
            failures: self.failures.push(
                LoggedFailure { issue_id, email, error, disposition: FailureDisposition::DeadLetter },
            ),
            ..self
        }
    }

    /// Whether publishing `issue` would contradict an issue already held.
    pub open spec fn conflicts(self, issue: IssueView) -> bool {
        has_issue(self.issues, issue.id) && self.issues[issue_index(self.issues, issue.id)]
            != issue
    }

    /// The state after a successful publication of `issue` to `emails`.
    pub open spec fn published(self, issue: IssueView, emails: Seq<Seq<char>>) -> StoreState {
        StoreState {
            issues: if has_issue(self.issues, issue.id) {
                self.issues
            } else {
                self.issues.push(issue)
            },
            rows: enqueue_all(self.rows, issue.id, emails),
            ..self
        }
    }

    /// What publishing `issue` to `emails` returns.
    pub open spec fn publish_result(self, issue: IssueView, emails: Seq<Seq<char>>) -> Result<
        IssueId,
        PublishError,
    > {
        if self.conflicts(issue) {
            Err(PublishError::IssueConflict)
        } else if enqueue_all(self.rows, issue.id, emails).len() > self.row_limit {
            Err(PublishError::Store(StoreError::QueueFull))
        } else {
            Ok(issue.id)
        }
    }
}

/// A row exists for a pairing exactly when some row carries it, and then
/// `row_index` is the first such row.
pub proof fn lemma_row_index(rows: Seq<RowView>, issue_id: IssueId, email: Seq<char>)
    ensures
        0 <= row_index(rows, issue_id, email) <= rows.len(),
        has_row(rows, issue_id, email) ==> {
            let r = rows[row_index(rows, issue_id, email)];
            r.issue_id == issue_id && r.email == email
        },
        forall|j: int|
            0 <= j < rows.len() && (#[trigger] rows[j]).issue_id == issue_id && rows[j].email
                == email ==> row_index(rows, issue_id, email) <= j,
{
    let p = key_is(issue_id, email);
    lemma_first_index(rows, p);
    assert forall|j: int|
        0 <= j < rows.len() && (#[trigger] rows[j]).issue_id == issue_id && rows[j].email
            == email implies row_index(rows, issue_id, email) <= j by {
        if j < first_index(rows, p) {
            assert(!p(rows[j]));
        }
    }
}

/// With unique pairings, the row that carries a pairing is the one that
/// `row_index` finds.
pub proof fn lemma_row_index_unique(rows: Seq<RowView>, j: int)
    requires
        distinct_keys(rows),
        0 <= j < rows.len(),
    ensures
        row_index(rows, rows[j].issue_id, rows[j].email) == j,
{
    lemma_row_index(rows, rows[j].issue_id, rows[j].email);
    let i = row_index(rows, rows[j].issue_id, rows[j].email);
    if i < j {
        assert(!(rows[i].issue_id == rows[j].issue_id && rows[i].email == rows[j].email));
    }
}

/// An issue is held exactly when some issue carries the identity.
pub proof fn lemma_issue_index(issues: Seq<IssueView>, id: IssueId)
    ensures
        0 <= issue_index(issues, id) <= issues.len(),
        has_issue(issues, id) ==> issues[issue_index(issues, id)].id == id,
        forall|j: int|
            0 <= j < issues.len() && (#[trigger] issues[j]).id == id ==> issue_index(issues, id)
                <= j,
{
    let p = issue_is(id);
    lemma_first_index(issues, p);
    assert forall|j: int| 0 <= j < issues.len() && (#[trigger] issues[j]).id == id implies issue_index(
        issues,
        id,
    ) <= j by {
        if j < first_index(issues, p) {
            assert(!p(issues[j]));
        }
    }
}

/// Appending an issue keeps every held issue where it was.
pub proof fn lemma_has_issue_push(issues: Seq<IssueView>, issue: IssueView, id: IssueId)
    ensures
        has_issue(issues, id) ==> has_issue(issues.push(issue), id) && issue_index(
            issues.push(issue),
            id,
        ) == issue_index(issues, id),
        has_issue(issues.push(issue), issue.id),
        !has_issue(issues, issue.id) ==> issue_index(issues.push(issue), issue.id) == issues.len(),
{
    let longer = issues.push(issue);
    lemma_issue_index(issues, id);
    lemma_issue_index(longer, id);
    lemma_issue_index(issues, issue.id);
    lemma_issue_index(longer, issue.id);
    if has_issue(issues, id) {
        let i = issue_index(issues, id);
        assert(longer[i] == issues[i]);
        let k = issue_index(longer, id);
        if k < i {
            assert(longer[k] == issues[k]);
        }
    }
    assert(longer[issues.len() as int] == issue);
    if !has_issue(issues, issue.id) {
        let k = issue_index(longer, issue.id);
        if k < issues.len() {
            assert(longer[k] == issues[k]);
        }
    }
}

/// Enqueuing one pairing keeps the old rows in place and adds at most a
/// fresh row for the pairing at the end.
pub proof fn lemma_enqueue_one(rows: Seq<RowView>, issue_id: IssueId, email: Seq<char>)
    ensures
        has_row(enqueue_one(rows, issue_id, email), issue_id, email),
        distinct_keys(rows) ==> distinct_keys(enqueue_one(rows, issue_id, email)),
        forall|id: IssueId, e: Seq<char>|
            has_row(rows, id, e) ==> #[trigger] has_row(enqueue_one(rows, issue_id, email), id, e)
                && row_index(enqueue_one(rows, issue_id, email), id, e) == row_index(rows, id, e),
        forall|id: IssueId, e: Seq<char>| #[trigger]
            has_row(enqueue_one(rows, issue_id, email), id, e) ==> has_row(rows, id, e) || (id
                == issue_id && e == email),
{
    let after = enqueue_one(rows, issue_id, email);
    lemma_row_index(rows, issue_id, email);
    lemma_row_index(after, issue_id, email);
    if !has_row(rows, issue_id, email) {
        assert(after[rows.len() as int] == fresh_row(issue_id, email));
        assert forall|i: int, j: int|
            #![trigger after[i], after[j]]
            0 <= i < j < after.len() && distinct_keys(rows) implies !(after[i].issue_id
            == after[j].issue_id && after[i].email == after[j].email) by {
            assert(after[i] == rows[i]);
            if j < rows.len() {
                assert(after[j] == rows[j]);
            }
        }
    }
    assert forall|id: IssueId, e: Seq<char>| has_row(rows, id, e) implies #[trigger] has_row(
        after,
        id,
        e,
    ) && row_index(after, id, e) == row_index(rows, id, e) by {
        lemma_row_index(rows, id, e);
        lemma_row_index(after, id, e);
        let i = row_index(rows, id, e);
        assert(after[i] == rows[i]);
        let k = row_index(after, id, e);
        if k < i {
            assert(after[k] == rows[k]);
        }
    }
    assert forall|id: IssueId, e: Seq<char>| #[trigger] has_row(after, id, e) implies has_row(
        rows,
        id,
        e,
    ) || (id == issue_id && e == email) by {
        lemma_row_index(rows, id, e);
        lemma_row_index(after, id, e);
        let k = row_index(after, id, e);
        if k < rows.len() {
            assert(after[k] == rows[k]);
        }
    }
}

/// Enqueuing a list keeps the old rows in place as a prefix, keeps pairings
/// unique, adds only fresh rows of the issue, and leaves a row for every
/// address in the list.
pub proof fn lemma_enqueue_all(rows: Seq<RowView>, issue_id: IssueId, emails: Seq<Seq<char>>)
    ensures
        rows.len() <= enqueue_all(rows, issue_id, emails).len() <= rows.len() + emails.len(),
        enqueue_all(rows, issue_id, emails).take(rows.len() as int) == rows,
        distinct_keys(rows) ==> distinct_keys(enqueue_all(rows, issue_id, emails)),
        forall|k: int|
            0 <= k < emails.len() ==> has_row(
                enqueue_all(rows, issue_id, emails),
                issue_id,
                #[trigger] emails[k],
            ),
        forall|i: int|
            rows.len() <= i < enqueue_all(rows, issue_id, emails).len() ==> {
                let r = #[trigger] enqueue_all(rows, issue_id, emails)[i];
                r == fresh_row(issue_id, r.email) && emails.contains(r.email)
            },
    decreases emails.len(),
{
    let after = enqueue_all(rows, issue_id, emails);
    if emails.len() == 0 {
        assert(after.take(rows.len() as int) =~= rows);
    } else {
        let head = emails.drop_last();
        let mid = enqueue_all(rows, issue_id, head);
        lemma_enqueue_all(rows, issue_id, head);
        lemma_enqueue_one(mid, issue_id, emails.last());
        assert(after.take(rows.len() as int) =~= mid.take(rows.len() as int));
        assert forall|k: int| 0 <= k < emails.len() implies has_row(
            after,
            issue_id,
            #[trigger] emails[k],
        ) by {
            if k < head.len() {
                assert(head[k] == emails[k]);
                assert(has_row(mid, issue_id, head[k]));
            }
        }
        assert forall|i: int| rows.len() <= i < after.len() implies {
            let r = #[trigger] after[i];
            r == fresh_row(issue_id, r.email) && emails.contains(r.email)
        } by {
            if i < mid.len() {
                let r = mid[i];
                assert(after[i] == r);
                assert(head.contains(r.email));
                let k = choose|k: int| 0 <= k < head.len() && head[k] == r.email;
                assert(emails[k] == r.email);
            } else {
                assert(after[i] == fresh_row(issue_id, emails.last()));
                assert(emails[emails.len() - 1] == emails.last());
            }
        }
    }
}

/// Enqueuing more addresses never yields fewer rows.
pub proof fn lemma_enqueue_all_grows(
    rows: Seq<RowView>,
    issue_id: IssueId,
    emails: Seq<Seq<char>>,
    n: int,
)
    requires
        0 <= n <= emails.len(),
    ensures
        enqueue_all(rows, issue_id, emails.take(n)).len() <= enqueue_all(
            rows,
            issue_id,
            emails,
        ).len(),
    decreases emails.len(),
{
    if n == emails.len() {
        assert(emails.take(n) == emails);
    } else {
        assert(emails.drop_last().take(n) == emails.take(n));
        lemma_enqueue_all_grows(rows, issue_id, emails.drop_last(), n);
    }
}

/// Enqueuing addresses that all have their row already changes nothing.
pub proof fn lemma_enqueue_all_present(
    rows: Seq<RowView>,
    issue_id: IssueId,
    emails: Seq<Seq<char>>,
)
    requires
        forall|k: int| 0 <= k < emails.len() ==> has_row(rows, issue_id, #[trigger] emails[k]),
    ensures
        enqueue_all(rows, issue_id, emails) == rows,
    decreases emails.len(),
{
    if emails.len() > 0 {
        let head = emails.drop_last();
        assert forall|k: int| 0 <= k < head.len() implies has_row(
            rows,
            issue_id,
            #[trigger] head[k],
        ) by {
            assert(head[k] == emails[k]);
        }
        lemma_enqueue_all_present(rows, issue_id, head);
        assert(emails[emails.len() - 1] == emails.last());
    }
}

/// The addresses owed an issue are exactly those with a row for it.
pub proof fn lemma_emails_owed(rows: Seq<RowView>, issue_id: IssueId)
    ensures
        forall|e: Seq<char>| #[trigger]
            emails_owed(rows, issue_id).contains(e) <==> has_row(rows, issue_id, e),
        emails_owed(rows, issue_id).len() <= rows.len(),
    decreases rows.len(),
{
    let owed = emails_owed(rows, issue_id);
    if rows.len() == 0 {
        assert forall|e: Seq<char>| #[trigger] owed.contains(e) <==> has_row(rows, issue_id, e) by {
            lemma_row_index(rows, issue_id, e);
        }
    } else {
        let head = rows.drop_last();
        let last = rows.last();
        let rest = emails_owed(head, issue_id);
        lemma_emails_owed(head, issue_id);
        assert forall|e: Seq<char>| #[trigger] owed.contains(e) <==> has_row(rows, issue_id, e) by {
            lemma_row_index(rows, issue_id, e);
            lemma_row_index(head, issue_id, e);
            assert(rest.contains(e) <==> has_row(head, issue_id, e));
            if owed.contains(e) {
                let k = choose|k: int| 0 <= k < owed.len() && owed[k] == e;
                if k < rest.len() {
                    assert(rest[k] == e);
                    assert(rest.contains(e));
                    let i = row_index(head, issue_id, e);
                    assert(rows[i] == head[i]);
                } else {
                    assert(last.issue_id == issue_id && last.email == e);
                    assert(rows[rows.len() - 1] == last);
                }
            }
            if has_row(rows, issue_id, e) {
                let i = row_index(rows, issue_id, e);
                if i < head.len() {
                    assert(head[i] == rows[i]);
                    assert(has_row(head, issue_id, e));
                    let k = choose|k: int| 0 <= k < rest.len() && rest[k] == e;
                    assert(owed[k] == e);
                } else {
                    assert(rows[i] == last);
                    assert(owed[owed.len() - 1] == e);
                }
            }
        }
    }
}

/// Enqueuing distinct addresses for an issue that the queue owes to nobody
/// leaves the queue owing the issue to exactly those addresses, in order.
pub proof fn lemma_enqueue_all_fresh(
    rows: Seq<RowView>,
    issue_id: IssueId,
    emails: Seq<Seq<char>>,
)
    requires
        emails_owed(rows, issue_id).len() == 0,
        emails.no_duplicates(),
    ensures
        emails_owed(enqueue_all(rows, issue_id, emails), issue_id) == emails,
        enqueue_all(rows, issue_id, emails).len() == rows.len() + emails.len(),
    decreases emails.len(),
{
    if emails.len() == 0 {
        assert(emails_owed(rows, issue_id) =~= emails);
    } else {
        let head = emails.drop_last();
        let e = emails.last();
        let mid = enqueue_all(rows, issue_id, head);
        lemma_enqueue_all_fresh(rows, issue_id, head);
        lemma_emails_owed(mid, issue_id);
        if has_row(mid, issue_id, e) {
            assert(head.contains(e));
            let k = choose|k: int| 0 <= k < head.len() && head[k] == e;
            assert(emails[k] == e && emails[emails.len() - 1] == e);
        }
        let after = mid.push(fresh_row(issue_id, e));
        assert(after.drop_last() == mid);
        assert(emails_owed(after, issue_id) == head.push(e));
        assert(head.push(e) =~= emails);
    }
}

/// Claiming a row leaves every pairing where it was, keeps the store well
/// formed, and makes the claimed row held.
pub proof fn lemma_claim_keeps_index(state: StoreState, i: int)
    requires
        state.wf(),
        0 <= i < state.rows.len(),
    ensures
        state.claimed(i).wf(),
        forall|id: IssueId, e: Seq<char>|
            row_index(state.claimed(i).rows, id, e) == #[trigger] row_index(state.rows, id, e),
        row_index(state.rows, state.rows[i].issue_id, state.rows[i].email) == i,
        holds_claim(state.claimed(i).rows, state.rows[i].issue_id, state.rows[i].email),
{
    let after = state.claimed(i).rows;
    assert forall|id: IssueId, e: Seq<char>|
        row_index(after, id, e) == #[trigger] row_index(state.rows, id, e) by {
        lemma_same_keys(after, state.rows, id, e);
    }
    lemma_row_index_unique(state.rows, i);
    assert forall|a: int, b: int|
        #![trigger after[a], after[b]]
        0 <= a < b < after.len() implies !(after[a].issue_id == after[b].issue_id && after[a].email
        == after[b].email) by {
        assert(!(state.rows[a].issue_id == state.rows[b].issue_id && state.rows[a].email
            == state.rows[b].email));
    }
    assert forall|k: int| 0 <= k < after.len() implies has_issue(
        state.issues,
        (#[trigger] after[k]).issue_id,
    ) by {
        assert(has_issue(state.issues, state.rows[k].issue_id));
    }
}

/// Rows that agree on every pairing are searched alike.
pub proof fn lemma_same_keys(a: Seq<RowView>, b: Seq<RowView>, issue_id: IssueId, email: Seq<char>)
    requires
        a.len() == b.len(),
        forall|i: int|
            0 <= i < a.len() ==> (#[trigger] a[i]).issue_id == b[i].issue_id && a[i].email
                == b[i].email,
    ensures
        row_index(a, issue_id, email) == row_index(b, issue_id, email),
{
    let p = key_is(issue_id, email);
    lemma_first_index(a, p);
    let i = first_index(a, p);
    assert forall|j: int| 0 <= j < i implies !p(#[trigger] b[j]) by {
        assert(!p(a[j]));
    }
    if i < a.len() {
        assert(p(a[i]));
        assert(b[i].issue_id == a[i].issue_id);
    }
    lemma_first_index_is(b, p, i);
}

/// Changing a row without touching its pairing keeps the store well formed.
pub proof fn lemma_update_keeps_wf(state: StoreState, i: int, row: RowView)
    requires
        state.wf(),
        0 <= i < state.rows.len(),
        row.issue_id == state.rows[i].issue_id,
        row.email == state.rows[i].email,
    ensures
        (StoreState { rows: state.rows.update(i, row), ..state }).wf(),
{
    let rows = state.rows;
    let after = rows.update(i, row);
    assert forall|a: int, b: int|
        #![trigger after[a], after[b]]
        0 <= a < b < after.len() implies !(after[a].issue_id == after[b].issue_id && after[a].email
        == after[b].email) by {
        assert(!(rows[a].issue_id == rows[b].issue_id && rows[a].email == rows[b].email));
    }
    assert forall|k: int| 0 <= k < after.len() implies has_issue(
        state.issues,
        (#[trigger] after[k]).issue_id,
    ) by {
        assert(has_issue(state.issues, rows[k].issue_id));
    }
}

/// Deleting a row keeps the store well formed.
pub proof fn lemma_remove_keeps_wf(state: StoreState, i: int)
    requires
        state.wf(),
        0 <= i < state.rows.len(),
    ensures
        (StoreState { rows: state.rows.remove(i), ..state }).wf(),
{
    let rows = state.rows;
    let after = rows.remove(i);
    assert forall|a: int, b: int|
        #![trigger after[a], after[b]]
        0 <= a < b < after.len() implies !(after[a].issue_id == after[b].issue_id && after[a].email
        == after[b].email) by {
        let a0 = if a < i {
            a
        } else {
            a + 1
        };
        let b0 = if b < i {
            b
        } else {
            b + 1
        };
        assert(after[a] == rows[a0] && after[b] == rows[b0]);
        assert(!(rows[a0].issue_id == rows[b0].issue_id && rows[a0].email == rows[b0].email));
    }
    assert forall|k: int| 0 <= k < after.len() implies has_issue(
        state.issues,
        (#[trigger] after[k]).issue_id,
    ) by {
        let k0 = if k < i {
            k
        } else {
            k + 1
        };
        assert(after[k] == rows[k0]);
        assert(has_issue(state.issues, rows[k0].issue_id));
    }
}


/// Deleting a row of a queue with unique pairings removes its pairing and
/// keeps every other pairing with its row.
pub proof fn lemma_remove_row(rows: Seq<RowView>, i: int)
    requires
        distinct_keys(rows),
        0 <= i < rows.len(),
    ensures
        !has_row(rows.remove(i), rows[i].issue_id, rows[i].email),
        forall|id: IssueId, e: Seq<char>|
            !(id == rows[i].issue_id && e == rows[i].email) ==> (#[trigger] has_row(
                rows.remove(i),
                id,
                e,
            ) == has_row(rows, id, e)),
        forall|id: IssueId, e: Seq<char>| #[trigger]
            has_row(rows.remove(i), id, e) ==> has_row(rows, id, e) && rows.remove(i)[row_index(
                rows.remove(i),
                id,
                e,
            )] == rows[row_index(rows, id, e)],
{
    let after = rows.remove(i);
    let gone = rows[i];
    lemma_row_index(after, gone.issue_id, gone.email);
    if has_row(after, gone.issue_id, gone.email) {
        let k = row_index(after, gone.issue_id, gone.email);
        let k0 = if k < i {
            k
        } else {
            k + 1
        };
        assert(after[k] == rows[k0]);
        if k0 < i {
            assert(!(rows[k0].issue_id == rows[i].issue_id && rows[k0].email == rows[i].email));
        } else {
            assert(!(rows[i].issue_id == rows[k0].issue_id && rows[i].email == rows[k0].email));
        }
    }
    assert forall|id: IssueId, e: Seq<char>| #[trigger]
        has_row(after, id, e) implies has_row(rows, id, e) && after[row_index(after, id, e)]
        == rows[row_index(rows, id, e)] by {
        lemma_row_index(after, id, e);
        lemma_row_index(rows, id, e);
        let k = row_index(after, id, e);
        let k0 = if k < i {
            k
        } else {
            k + 1
        };
        assert(after[k] == rows[k0]);
        assert(rows[k0].issue_id == id && rows[k0].email == e);
        lemma_row_index_unique(rows, k0);
    }
    assert forall|id: IssueId, e: Seq<char>|
        !(id == rows[i].issue_id && e == rows[i].email) implies (#[trigger] has_row(after, id, e)
        == has_row(rows, id, e)) by {
        lemma_row_index(after, id, e);
        lemma_row_index(rows, id, e);
        if has_row(rows, id, e) {
            let k0 = row_index(rows, id, e);
            let k = if k0 < i {
                k0
            } else {
                k0 - 1
            };
            assert(after[k] == rows[k0]);
        }
    }
}

/// Changing a row without touching its pairing leaves every pairing where it
/// was.
pub proof fn lemma_update_row(rows: Seq<RowView>, j: int, row: RowView)
    requires
        0 <= j < rows.len(),
        row.issue_id == rows[j].issue_id,
        row.email == rows[j].email,
    ensures
        forall|id: IssueId, e: Seq<char>| #[trigger]
            row_index(rows.update(j, row), id, e) == row_index(rows, id, e),
{
    let after = rows.update(j, row);
    assert forall|id: IssueId, e: Seq<char>| #[trigger]
        row_index(after, id, e) == row_index(rows, id, e) by {
        lemma_same_keys(after, rows, id, e);
    }
}

/// After enqueuing, a pairing has a row exactly if it had one before or was
/// one of those enqueued.
pub proof fn lemma_enqueue_all_rows(rows: Seq<RowView>, issue_id: IssueId, emails: Seq<Seq<char>>)
    ensures
        forall|id: IssueId, e: Seq<char>| #[trigger]
            has_row(enqueue_all(rows, issue_id, emails), id, e) <==> has_row(rows, id, e) || (id
                == issue_id && emails.contains(e)),
    decreases emails.len(),
{
    let after = enqueue_all(rows, issue_id, emails);
    if emails.len() == 0 {
        assert forall|id: IssueId, e: Seq<char>| #[trigger]
            has_row(after, id, e) <==> has_row(rows, id, e) || (id == issue_id && emails.contains(
                e,
            )) by {}
    } else {
        let head = emails.drop_last();
        let last = emails.last();
        let mid = enqueue_all(rows, issue_id, head);
        lemma_enqueue_all_rows(rows, issue_id, head);
        lemma_enqueue_one(mid, issue_id, last);
        assert forall|id: IssueId, e: Seq<char>| #[trigger]
            has_row(after, id, e) <==> has_row(rows, id, e) || (id == issue_id && emails.contains(
                e,
            )) by {
            assert(emails[emails.len() - 1] == last);
            if head.contains(e) {
                let k = choose|k: int| 0 <= k < head.len() && head[k] == e;
                assert(emails[k] == e);
            }
            if emails.contains(e) {
                let k = choose|k: int| 0 <= k < emails.len() && emails[k] == e;
                if k < head.len() {
                    assert(head[k] == e);
                }
            }
            assert(has_row(mid, id, e) <==> has_row(rows, id, e) || (id == issue_id
                && head.contains(e)));
        }
    }
}

} // verus!
