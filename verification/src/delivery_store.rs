//! The delivery store: published issues, the queue of deliveries still owed,
//! and the log of failed attempts.

use vstd::prelude::*;
use crate::domain::{
    ClaimedItem, FailureDisposition, FailureRecord, IssueId, LoggedFailure, NewsletterIssue,
    OutboundEmail, PublishError, QueueRow, StoreError, Subscriber, SubscriberStatus, Timestamp,
};
use crate::seq_search::lemma_first_index_is;
use crate::store_model::{
    StoreState, confirmed_emails, eligible_at, enqueue_all, fresh_row, has_issue, has_row,
    holds_claim, issue_index, issue_is, key_is, lemma_enqueue_all, lemma_enqueue_all_grows,
    lemma_has_issue_push, lemma_issue_index, lemma_remove_keeps_wf, lemma_row_index,
    lemma_update_keeps_wf, message_for, next_claim, row_index,
};

verus! {

/// The texts of a list of strings.
pub open spec fn texts(strings: Seq<String>) -> Seq<Seq<char>> {
    Seq::new(strings.len(), |i: int| strings[i]@)
}

/// The views of a list of failure records.
pub open spec fn logged_failures(records: Seq<FailureRecord>) -> Seq<LoggedFailure> {
    Seq::new(records.len(), |i: int| records[i]@)
}

/// What enqueuing the issue for `emails` returns in the given state.
pub open spec fn enqueue_result(state: StoreState, issue_id: IssueId, emails: Seq<Seq<char>>) -> Result<
    (),
    StoreError,
> {
    if !has_issue(state.issues, issue_id) {
        Err(StoreError::UnknownIssue)
    } else if enqueue_all(state.rows, issue_id, emails).len() > state.row_limit {
        Err(StoreError::QueueFull)
    } else {
        Ok(())
    }
}

/// What resolving or releasing a claim on the pairing returns in the given
/// state.
pub open spec fn claim_check(state: StoreState, issue_id: IssueId, email: Seq<char>) -> Result<
    (),
    StoreError,
> {
    if holds_claim(state.rows, issue_id, email) {
        Ok(())
    } else {
        Err(StoreError::ClaimNotHeld)
    }
}

/// Published issues, pending deliveries and the failure log, kept consistent
/// with one another.
pub struct DeliveryStore {
    issues: Vec<NewsletterIssue>,
    rows: Vec<QueueRow>,
    failures: Vec<FailureRecord>,
    row_limit: usize,
}

impl View for DeliveryStore {
    type V = StoreState;

    closed spec fn view(&self) -> StoreState {
        StoreState {
            issues: Seq::new(self.issues@.len(), |i: int| self.issues@[i]@),
            rows: Seq::new(self.rows@.len(), |i: int| self.rows@[i]@),
            failures: logged_failures(self.failures@),
            row_limit: self.row_limit,
        }
    }
}

impl DeliveryStore {
    /// The store's invariant; see [`StoreState::wf`].
    pub open spec fn wf(&self) -> bool {
        self@.wf()
    }

    /// An empty store whose queue is bounded only by the machine.
    pub fn new() -> (store: Self)
        ensures
            store.wf(),
            store@ == StoreState::empty(usize::MAX),
    {
        DeliveryStore::with_row_limit(usize::MAX)
    }

    /// An empty store whose queue holds at most `row_limit` rows.
    pub fn with_row_limit(row_limit: usize) -> (store: Self)
        ensures
            store.wf(),
            store@ == StoreState::empty(row_limit),
    {
        let store = DeliveryStore {
            issues: Vec::new(),
            rows: Vec::new(),
            failures: Vec::new(),
            row_limit,
        };
        proof {
            let empty = StoreState::empty(row_limit);
            assert(store@.issues =~= empty.issues);
            assert(store@.rows =~= empty.rows);
            assert(store@.failures =~= empty.failures);
        }
        store
    }

    /// The number of deliveries still owed.
    pub fn pending(&self) -> (n: usize)
        ensures
            n == self@.rows.len(),
    {
        self.rows.len()
    }

    /// The largest number of rows the queue may hold.
    pub fn row_limit(&self) -> (n: usize)
        ensures
            n == self@.row_limit,
    {
        self.row_limit
    }

    /// The log of failed attempts, oldest first.
    pub fn failures(&self) -> (records: &Vec<FailureRecord>)
        ensures
            logged_failures(records@) == self@.failures,
    {
        &self.failures
    }

    /// Index of the row for the pairing, or the number of rows.
    fn find_row(&self, issue_id: IssueId, email: &String) -> (at: usize)
        ensures
            at == row_index(self@.rows, issue_id, email@),
            at <= self@.rows.len(),
            at <= self.rows@.len(),
    {
        let mut i: usize = 0;
        while i < self.rows.len()
            invariant
                i <= self.rows@.len(),
                forall|j: int| 0 <= j < i ==> !key_is(issue_id, email@)(#[trigger] self@.rows[j]),
            decreases self.rows@.len() - i,
        {
            if self.rows[i].issue_id == issue_id && self.rows[i].subscriber_email == *email {
                proof {
                    assert(key_is(issue_id, email@)(self@.rows[i as int]));
                    lemma_first_index_is(self@.rows, key_is(issue_id, email@), i as int);
                }
                return i;
            }
            i += 1;
        }
        proof {
            lemma_first_index_is(self@.rows, key_is(issue_id, email@), i as int);
        }
        i
    }

    /// Index of the issue with the given identity, or the number of issues.
    fn find_issue(&self, id: IssueId) -> (at: usize)
        ensures
            at == issue_index(self@.issues, id),
            at <= self@.issues.len(),
            at <= self.issues@.len(),
    {
        let mut i: usize = 0;
        while i < self.issues.len()
            invariant
                i <= self.issues@.len(),
                forall|j: int| 0 <= j < i ==> !issue_is(id)(#[trigger] self@.issues[j]),
            decreases self.issues@.len() - i,
        {
            if self.issues[i].id == id {
                proof {
                    assert(issue_is(id)(self@.issues[i as int]));
                    lemma_first_index_is(self@.issues, issue_is(id), i as int);
                }
                return i;
            }
            i += 1;
        }
        proof {
            lemma_first_index_is(self@.issues, issue_is(id), i as int);
        }
        i
    }

    /// Index of the first row that may be claimed at `now`, or the number of
    /// rows.
    fn find_eligible(&self, now: Timestamp) -> (at: usize)
        ensures
            at == next_claim(self@.rows, now),
            at <= self@.rows.len(),
            at <= self.rows@.len(),
    {
        let mut i: usize = 0;
        while i < self.rows.len()
            invariant
                i <= self.rows@.len(),
                forall|j: int| 0 <= j < i ==> !eligible_at(now)(#[trigger] self@.rows[j]),
            decreases self.rows@.len() - i,
        {
            if !self.rows[i].claimed && self.rows[i].next_eligible_at <= now {
                proof {
                    assert(eligible_at(now)(self@.rows[i as int]));
                    lemma_first_index_is(self@.rows, eligible_at(now), i as int);
                }
                return i;
            }
            i += 1;
        }
        proof {
            lemma_first_index_is(self@.rows, eligible_at(now), i as int);
        }
        i
    }

    /// The issue with the given identity, if it is held.
    pub fn issue(&self, id: IssueId) -> (found: Option<&NewsletterIssue>)
        ensures
            match found {
                Some(issue) => has_issue(self@.issues, id) && issue@ == self@.issues[issue_index(
                    self@.issues,
                    id,
                )],
                None => !has_issue(self@.issues, id),
            },
    {
        let at = self.find_issue(id);
        if at < self.issues.len() {
            Some(&self.issues[at])
        } else {
            None
        }
    }

    /// The row for the pairing, if there is one.
    pub fn row(&self, issue_id: IssueId, email: &String) -> (found: Option<&QueueRow>)
        ensures
            match found {
                Some(row) => has_row(self@.rows, issue_id, email@) && row@ == self@.rows[row_index(
                    self@.rows,
                    issue_id,
                    email@,
                )],
                None => !has_row(self@.rows, issue_id, email@),
            },
    {
        let at = self.find_row(issue_id, email);
        if at < self.rows.len() {
            Some(&self.rows[at])
        } else {
            None
        }
    }

    /// Renders the message that delivers a claimed row.
    pub(crate) fn render(&self, item: &ClaimedItem) -> (message: OutboundEmail)
        requires
            self.wf(),
            has_row(self@.rows, item.issue_id, item.subscriber_email@),
        ensures
            message@ == message_for(
                self@.issues,
                self@.rows[row_index(self@.rows, item.issue_id, item.subscriber_email@)],
            ),
    {
        proof {
            lemma_row_index(self@.rows, item.issue_id, item.subscriber_email@);
        }
        let at = self.find_issue(item.issue_id);
        let issue = &self.issues[at];
        OutboundEmail {
            recipient: item.subscriber_email.clone(),
            subject: issue.title.clone(),
            html_body: issue.html_body.clone(),
            text_body: issue.text_body.clone(),
        }
    }

    /// Enqueues the issue for every address in `subscriber_emails`, all or
    /// nothing.
    ///
    /// A pairing that already has a row keeps it untouched, so enqueuing twice
    /// is the same as enqueuing once. The call is refused, and changes
    /// nothing, when the issue is not held or when the new rows would exceed
    /// the queue's limit.
    pub fn enqueue_many(&mut self, issue_id: IssueId, subscriber_emails: &Vec<String>) -> (r: Result<
        (),
        StoreError,
    >)
        requires
            old(self).wf(),
        ensures
            final(self).wf(),
            r == enqueue_result(old(self)@, issue_id, texts(subscriber_emails@)),
            r is Ok ==> final(self)@ == old(self)@.enqueued(issue_id, texts(subscriber_emails@)),
            r is Err ==> final(self)@ == old(self)@,
    {
        let ghost emails = texts(subscriber_emails@);
        let ghost before = self@;
        proof {
            lemma_issue_index(before.issues, issue_id);
        }
        if self.find_issue(issue_id) >= self.issues.len() {
            return Err(StoreError::UnknownIssue);
        }
        let start = self.rows.len();
        let mut k: usize = 0;
        assert(emails.take(0) =~= Seq::<Seq<char>>::empty());
        while k < subscriber_emails.len()
            invariant
                k <= subscriber_emails.len(),
                emails == texts(subscriber_emails@),
                before == old(self)@,
                before.wf(),
                has_issue(before.issues, issue_id),
                start == before.rows.len(),
                self@.issues == before.issues,
                self@.failures == before.failures,
                self@.row_limit == before.row_limit,
                self@.rows == enqueue_all(before.rows, issue_id, emails.take(k as int)),
                self@.rows.len() <= before.row_limit,
            decreases subscriber_emails.len() - k,
        {
            let email = &subscriber_emails[k];
            let ghost done = self@.rows;
            proof {
                assert(emails.take(k as int + 1).drop_last() =~= emails.take(k as int));
                assert(emails.take(k as int + 1).last() == email@);
                lemma_enqueue_all(before.rows, issue_id, emails.take(k as int));
            }
            let at = self.find_row(issue_id, email);
            if at == self.rows.len() {
                if self.rows.len() >= self.row_limit {
                    self.rows.truncate(start);
                    proof {
                        let next = enqueue_all(before.rows, issue_id, emails.take(k as int + 1));
                        assert(next == done.push(fresh_row(issue_id, email@)));
                        lemma_enqueue_all_grows(before.rows, issue_id, emails, k as int + 1);
                        assert(enqueue_all(before.rows, issue_id, emails).len() > before.row_limit);
                        assert(done.take(start as int) == before.rows);
                        assert(self@.rows =~= done.take(start as int));
                        assert(self@ == before);
                    }
                    return Err(StoreError::QueueFull);
                }
                self.rows.push(
                    QueueRow {
                        issue_id,
                        subscriber_email: email.clone(),
                        attempts: 0,
                        next_eligible_at: 0,
                        last_error: None,
                        claimed: false,
                    },
                );
                assert(self@.rows =~= enqueue_all(
                    before.rows,
                    issue_id,
                    emails.take(k as int + 1),
                ));
            }
            k += 1;
        }
        proof {
            assert(emails.take(k as int) == emails);
            lemma_enqueue_all(before.rows, issue_id, emails);
            let after = self@.rows;
            assert forall|i: int| 0 <= i < after.len() implies has_issue(
                self@.issues,
                (#[trigger] after[i]).issue_id,
            ) by {
                if i < before.rows.len() {
                    assert(after.take(before.rows.len() as int)[i] == after[i]);
                    assert(has_issue(before.issues, before.rows[i].issue_id));
                }
            }
            assert(self@ == before.enqueued(issue_id, emails));
        }
        Ok(())
    }

    /// Claims the first row that is unclaimed and due at `now`, without
    /// waiting when there is none.
    ///
    /// The claimed row stays in the queue but is passed over by every later
    /// claim until it is resolved or released.
    pub fn claim_one(&mut self, now: Timestamp) -> (claim: Option<ClaimedItem>)
        requires
            old(self).wf(),
        ensures
            final(self).wf(),
            match claim {
                Some(item) => {
                    let i = next_claim(old(self)@.rows, now);
                    &&& i < old(self)@.rows.len()
                    &&& final(self)@ == old(self)@.claimed(i)
                    &&& item.issue_id == old(self)@.rows[i].issue_id
                    &&& item.subscriber_email@ == old(self)@.rows[i].email
                    &&& item.attempts == old(self)@.rows[i].attempts
                },
                None => next_claim(old(self)@.rows, now) == old(self)@.rows.len() && final(self)@
                    == old(self)@,
            },
    {
        let at = self.find_eligible(now);
        if at >= self.rows.len() {
            return None;
        }
        let ghost before = self@;
        let row = &self.rows[at];
        let item = ClaimedItem {
            issue_id: row.issue_id,
            subscriber_email: row.subscriber_email.clone(),
            attempts: row.attempts,
        };
        let taken = QueueRow {
            issue_id: row.issue_id,
            subscriber_email: row.subscriber_email.clone(),
            attempts: row.attempts,
            next_eligible_at: row.next_eligible_at,
            last_error: row.last_error.clone(),
            claimed: true,
        };
        self.rows.set(at, taken);
        proof {
            assert(self@.rows =~= before.claimed(at as int).rows);
            assert(self@ == before.claimed(at as int));
            lemma_update_keeps_wf(before, at as int, taken@);
        }
        Some(item)
    }

    /// Gives up the claim on the item's row and leaves the row as it was, so
    /// that it can be claimed again.
    pub fn release(&mut self, item: &ClaimedItem) -> (r: Result<(), StoreError>)
        requires
            old(self).wf(),
        ensures
            final(self).wf(),
            r == claim_check(old(self)@, item.issue_id, item.subscriber_email@),
            r is Ok ==> final(self)@ == old(self)@.released(
                item.issue_id,
                item.subscriber_email@,
            ),
            r is Err ==> final(self)@ == old(self)@,
    {
        let at = self.find_row(item.issue_id, &item.subscriber_email);
        if at >= self.rows.len() || !self.rows[at].claimed {
            return Err(StoreError::ClaimNotHeld);
        }
        let ghost before = self@;
        let row = &self.rows[at];
        let freed = QueueRow {
            issue_id: row.issue_id,
            subscriber_email: row.subscriber_email.clone(),
            attempts: row.attempts,
            next_eligible_at: row.next_eligible_at,
            last_error: row.last_error.clone(),
            claimed: false,
        };
        self.rows.set(at, freed);
        proof {
            let after = before.released(item.issue_id, item.subscriber_email@);
            assert(self@.rows =~= after.rows);
            assert(self@ == after);
            lemma_update_keeps_wf(before, at as int, freed@);
        }
        Ok(())
    }

    /// Resolves the claimed item as delivered: its row is deleted.
    pub fn resolve_success(&mut self, item: &ClaimedItem) -> (r: Result<(), StoreError>)
        requires
            old(self).wf(),
        ensures
            final(self).wf(),
            r == claim_check(old(self)@, item.issue_id, item.subscriber_email@),
            r is Ok ==> final(self)@ == old(self)@.resolved_success(
                item.issue_id,
                item.subscriber_email@,
            ),
            r is Err ==> final(self)@ == old(self)@,
    {
        let at = self.find_row(item.issue_id, &item.subscriber_email);
        if at >= self.rows.len() || !self.rows[at].claimed {
            return Err(StoreError::ClaimNotHeld);
        }
        let ghost before = self@;
        self.rows.remove(at);
        proof {
            let after = before.resolved_success(item.issue_id, item.subscriber_email@);
            assert(self@.rows =~= after.rows);
            assert(self@ == after);
            lemma_remove_keeps_wf(before, at as int);
        }
        Ok(())
    }

    /// Resolves the claimed item as failed for now: the row stays, counts one
    /// more attempt, becomes due at `retry_at`, notes `error`, and is no
    /// longer claimed. The failure is logged.
    pub fn resolve_retry(&mut self, item: &ClaimedItem, retry_at: Timestamp, error: String) -> (r:
        Result<(), StoreError>)
        requires
            old(self).wf(),
        ensures
            final(self).wf(),
            r == claim_check(old(self)@, item.issue_id, item.subscriber_email@),
            r is Ok ==> final(self)@ == old(self)@.resolved_retry(
                item.issue_id,
                item.subscriber_email@,
                retry_at,
                error@,
            ),
            r is Err ==> final(self)@ == old(self)@,
    {
        let at = self.find_row(item.issue_id, &item.subscriber_email);
        if at >= self.rows.len() || !self.rows[at].claimed {
            return Err(StoreError::ClaimNotHeld);
        }
        let ghost before = self@;
        proof {
            lemma_row_index(before.rows, item.issue_id, item.subscriber_email@);
        }
        let row = &self.rows[at];
        let attempts: u32 = if row.attempts < u32::MAX {
            row.attempts + 1
        } else {
            row.attempts
        };
        let later = QueueRow {
            issue_id: row.issue_id,
            subscriber_email: row.subscriber_email.clone(),
            attempts,
            next_eligible_at: retry_at,
            last_error: Some(error.clone()),
            claimed: false,
        };
        self.rows.set(at, later);
        self.failures.push(
            FailureRecord {
                issue_id: item.issue_id,
                subscriber_email: item.subscriber_email.clone(),
                error,
                disposition: FailureDisposition::Retry,
            },
        );
        proof {
            let after = before.resolved_retry(
                item.issue_id,
                item.subscriber_email@,
                retry_at,
                error@,
            );
            assert(self@.rows =~= after.rows);
            assert(self@.failures =~= after.failures);
            assert(self@ == after);
            lemma_update_keeps_wf(before, at as int, later@);
        }
        Ok(())
    }

    /// Resolves the claimed item as abandoned: the failure is logged with the
    /// issue, the subscriber and `error`, and the row is deleted.
    pub fn resolve_dead_letter(&mut self, item: &ClaimedItem, error: String) -> (r: Result<
        (),
        StoreError,
    >)
        requires
            old(self).wf(),
        ensures
            final(self).wf(),
            r == claim_check(old(self)@, item.issue_id, item.subscriber_email@),
            r is Ok ==> final(self)@ == old(self)@.resolved_dead_letter(
                item.issue_id,
                item.subscriber_email@,
                error@,
            ),
            r is Err ==> final(self)@ == old(self)@,
    {
        let at = self.find_row(item.issue_id, &item.subscriber_email);
        if at >= self.rows.len() || !self.rows[at].claimed {
            return Err(StoreError::ClaimNotHeld);
        }
        let ghost before = self@;
        self.rows.remove(at);
        self.failures.push(
            FailureRecord {
                issue_id: item.issue_id,
                subscriber_email: item.subscriber_email.clone(),
                error,
                disposition: FailureDisposition::DeadLetter,
            },
        );
        proof {
            let after = before.resolved_dead_letter(
                item.issue_id,
                item.subscriber_email@,
                error@,
            );
            assert(self@.rows =~= after.rows);
            assert(self@.failures =~= after.failures);
            assert(self@ == after);
            lemma_remove_keeps_wf(before, at as int);
        }
        Ok(())
    }
}

/// Collects the addresses of the confirmed subscribers, in order.
pub fn confirmed_addresses(subscribers: &Vec<Subscriber>) -> (emails: Vec<String>)
    ensures
        texts(emails@) == confirmed_emails(subscribers@),
{
    let mut emails: Vec<String> = Vec::new();
    let mut i: usize = 0;
    assert(subscribers@.take(0) =~= Seq::<Subscriber>::empty());
    assert(texts(emails@) =~= confirmed_emails(subscribers@.take(0)));
    while i < subscribers.len()
        invariant
            i <= subscribers.len(),
            texts(emails@) == confirmed_emails(subscribers@.take(i as int)),
        decreases subscribers.len() - i,
    {
        let ghost before = emails@;
        proof {
            assert(subscribers@.take(i as int + 1).drop_last() =~= subscribers@.take(i as int));
            assert(subscribers@.take(i as int + 1).last() == subscribers@[i as int]);
        }
        match subscribers[i].status {
            SubscriberStatus::Confirmed => {
                emails.push(subscribers[i].email.clone());
                assert(texts(emails@) =~= texts(before).push(subscribers@[i as int].email@));
            },
            SubscriberStatus::Pending => {},
        }
        i += 1;
    }
    proof {
        assert(subscribers@.take(i as int) == subscribers@);
    }
    emails
}

impl DeliveryStore {
    /// Publishes `issue` to the subscribers that are confirmed right now, all
    /// or nothing.
    ///
    /// On success the issue is held and the queue owes it to every confirmed
    /// subscriber in the list. Publishing an issue that is already held, with
    /// the same content, only enqueues the pairings that have no row, so a
    /// repeated publication adds nothing. The call is refused, and changes
    /// nothing, when a different issue is held under the same identity or when
    /// the queue cannot take the new rows.
    pub fn publish(&mut self, issue: NewsletterIssue, subscribers: &Vec<Subscriber>) -> (r: Result<
        IssueId,
        PublishError,
    >)
        requires
            old(self).wf(),
        ensures
            final(self).wf(),
            r == old(self)@.publish_result(issue@, confirmed_emails(subscribers@)),
            r is Ok ==> final(self)@ == old(self)@.published(
                issue@,
                confirmed_emails(subscribers@),
            ),
            r is Err ==> final(self)@ == old(self)@,
    {
        let ghost before = self@;
        let ghost content = issue@;
        let id = issue.id;
        let emails = confirmed_addresses(subscribers);
        let at = self.find_issue(id);
        proof {
            lemma_issue_index(before.issues, id);
        }
        if at < self.issues.len() {
            let held = &self.issues[at];
            let same = held.title == issue.title && held.html_body == issue.html_body
                && held.text_body == issue.text_body && held.created_at == issue.created_at;
            if !same {
                return Err(PublishError::IssueConflict);
            }
            assert(before.issues[at as int] == content);
            match self.enqueue_many(id, &emails) {
                Ok(()) => Ok(id),
                Err(e) => Err(PublishError::Store(e)),
            }
        } else {
            self.issues.push(issue);
            proof {
                let grown = before.issues.push(content);
                assert(self@.issues =~= grown);
                lemma_has_issue_push(before.issues, content, id);
                assert forall|i: int, j: int|
                    #![trigger grown[i], grown[j]]
                    0 <= i < j < grown.len() implies grown[i].id != grown[j].id by {
                    if j == before.issues.len() {
                        assert(grown[i] == before.issues[i]);
                    }
                }
                assert forall|i: int| 0 <= i < before.rows.len() implies has_issue(
                    grown,
                    (#[trigger] before.rows[i]).issue_id,
                ) by {
                    lemma_has_issue_push(before.issues, content, before.rows[i].issue_id);
                }
            }
            match self.enqueue_many(id, &emails) {
                Ok(()) => Ok(id),
                Err(e) => {
                    let ghost mid = self@;
                    assert(mid.issues == before.issues.push(content));
                    self.issues.pop();
                    proof {
                        assert(self@.issues.len() == before.issues.len());
                        assert forall|i: int| 0 <= i < before.issues.len() implies self@.issues[i]
                            == before.issues[i] by {
                            assert(self@.issues[i] == mid.issues[i]);
                        }
                        assert(self@.issues =~= before.issues);
                        assert(self@ == before);
                    }
                    Err(PublishError::Store(e))
                },
            }
        }
    }
}

} // verus!
