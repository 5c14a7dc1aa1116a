use std::cell::RefCell;
use std::collections::VecDeque;

use mailnewsletter::delivery_store::{confirmed_addresses, DeliveryStore};
use mailnewsletter::domain::{
    ClaimedItem, FailureDisposition, FailureRecord, GatewayError, NewsletterIssue, OutboundEmail,
    PublishError, QueueRow, StoreError, Subscriber, SubscriberStatus,
};
use mailnewsletter::issue_delivery_worker::{
    dispatch_all_pending_emails, settle_delivery, try_execute_task, DrainSummary,
    ExecutionOutcome, ExecutorError,
};
use mailnewsletter::retry_policy::RetryPolicy;

fn issue(id: u64) -> NewsletterIssue {
    NewsletterIssue {
        id,
        title: format!("Issue {}", id),
        html_body: String::from("<p>Hello</p>"),
        text_body: String::from("Hello"),
        created_at: 1_700_000_000,
    }
}

fn confirmed(email: &str) -> Subscriber {
    Subscriber { email: String::from(email), status: SubscriberStatus::Confirmed }
}

fn pending(email: &str) -> Subscriber {
    Subscriber { email: String::from(email), status: SubscriberStatus::Pending }
}

fn policy() -> RetryPolicy {
    RetryPolicy { max_attempts: 3, base_delay: 10, max_delay: 600 }
}

fn always_ok(_message: OutboundEmail) -> Result<(), GatewayError> {
    Ok(())
}

fn transient(text: &str) -> Result<(), GatewayError> {
    Err(GatewayError::Transient(String::from(text)))
}

fn permanent(text: &str) -> Result<(), GatewayError> {
    Err(GatewayError::Permanent(String::from(text)))
}

fn emails(list: &[&str]) -> Vec<String> {
    list.iter().map(|e| String::from(*e)).collect()
}

fn store_with(id: u64, addresses: &[&str]) -> DeliveryStore {
    let mut store = DeliveryStore::new();
    let subscribers: Vec<Subscriber> = addresses.iter().map(|a| confirmed(a)).collect();
    assert_eq!(store.publish(issue(id), &subscribers), Ok(id));
    store
}

fn row_of(store: &DeliveryStore, id: u64, email: &str) -> Option<QueueRow> {
    store.row(id, &String::from(email)).cloned()
}

#[test]
fn two_subscribers_are_delivered_then_the_queue_is_empty() {
    let mut store = store_with(1, &["a@x", "b@x"]);
    assert_eq!(store.pending(), 2);
    let p = policy();
    assert_eq!(try_execute_task(&mut store, &always_ok, &p, 100), Ok(ExecutionOutcome::TaskCompleted));
    assert_eq!(try_execute_task(&mut store, &always_ok, &p, 100), Ok(ExecutionOutcome::TaskCompleted));
    assert_eq!(try_execute_task(&mut store, &always_ok, &p, 100), Ok(ExecutionOutcome::EmptyQueue));
    assert_eq!(store.pending(), 0);
    assert!(store.failures().is_empty());
}

#[test]
fn transient_failure_is_retried_after_its_backoff() {
    let mut store = store_with(1, &["c@x"]);
    let script = RefCell::new(VecDeque::from(vec![transient("timeout"), Ok(())]));
    let gateway = |_m: OutboundEmail| script.borrow_mut().pop_front().unwrap();
    let p = policy();

    assert_eq!(try_execute_task(&mut store, &gateway, &p, 100), Ok(ExecutionOutcome::TaskFailed));
    let row = row_of(&store, 1, "c@x").unwrap();
    assert_eq!(row.attempts, 1);
    assert_eq!(row.next_eligible_at, 110);
    assert_eq!(row.last_error, Some(String::from("timeout")));
    assert!(!row.claimed);

    // Not yet due: the row stays and the gateway is not asked.
    assert_eq!(try_execute_task(&mut store, &gateway, &p, 109), Ok(ExecutionOutcome::EmptyQueue));
    assert_eq!(script.borrow().len(), 1);
    assert_eq!(store.pending(), 1);

    assert_eq!(try_execute_task(&mut store, &gateway, &p, 110), Ok(ExecutionOutcome::TaskCompleted));
    assert_eq!(try_execute_task(&mut store, &gateway, &p, 110), Ok(ExecutionOutcome::EmptyQueue));
    assert_eq!(store.pending(), 0);
    assert!(script.borrow().is_empty());
}

#[test]
fn permanent_failure_is_dead_lettered_at_once() {
    let mut store = store_with(7, &["bad@x"]);
    let gateway = |_m: OutboundEmail| permanent("invalid recipient");
    let p = policy();
    assert_eq!(try_execute_task(&mut store, &gateway, &p, 100), Ok(ExecutionOutcome::TaskCompleted));
    assert_eq!(store.pending(), 0);
    assert_eq!(
        store.failures(),
        &vec![FailureRecord {
            issue_id: 7,
            subscriber_email: String::from("bad@x"),
            error: String::from("invalid recipient"),
            disposition: FailureDisposition::DeadLetter,
        }]
    );
    assert_eq!(try_execute_task(&mut store, &gateway, &p, 100), Ok(ExecutionOutcome::EmptyQueue));
    assert_eq!(store.failures().len(), 1);
}

#[test]
fn publish_enqueues_one_row_per_confirmed_subscriber() {
    let mut store = DeliveryStore::new();
    let subscribers =
        vec![confirmed("a@x"), pending("p@x"), confirmed("b@x"), confirmed("c@x"), pending("q@x")];
    assert_eq!(store.publish(issue(3), &subscribers), Ok(3));
    assert_eq!(store.pending(), 3);
    for email in ["a@x", "b@x", "c@x"] {
        let row = row_of(&store, 3, email).unwrap();
        assert_eq!(
            row,
            QueueRow {
                issue_id: 3,
                subscriber_email: String::from(email),
                attempts: 0,
                next_eligible_at: 0,
                last_error: None,
                claimed: false,
            }
        );
    }
    assert_eq!(row_of(&store, 3, "p@x"), None);
    assert_eq!(row_of(&store, 3, "q@x"), None);
    assert_eq!(store.issue(3), Some(&issue(3)));
}

#[test]
fn publish_is_a_snapshot_of_the_confirmed_subscribers() {
    let mut store = DeliveryStore::new();
    assert_eq!(store.publish(issue(1), &vec![confirmed("a@x"), pending("late@x")]), Ok(1));
    assert_eq!(store.publish(issue(2), &vec![confirmed("a@x"), confirmed("late@x")]), Ok(2));
    assert_eq!(row_of(&store, 1, "late@x"), None);
    assert!(row_of(&store, 2, "late@x").is_some());
    assert_eq!(store.pending(), 3);
}

#[test]
fn publishing_twice_adds_no_rows() {
    let mut store = DeliveryStore::new();
    let subscribers = vec![confirmed("a@x"), confirmed("b@x")];
    assert_eq!(store.publish(issue(1), &subscribers), Ok(1));
    assert_eq!(store.publish(issue(1), &subscribers), Ok(1));
    assert_eq!(store.pending(), 2);
    let p = policy();
    assert_eq!(
        dispatch_all_pending_emails(&mut store, &always_ok, &p, 0),
        Ok(DrainSummary { completed: 2, failed: 0 })
    );
}

#[test]
fn publishing_again_keeps_the_state_of_existing_rows() {
    let mut store = store_with(1, &["a@x"]);
    let gateway = |_m: OutboundEmail| transient("busy");
    assert_eq!(try_execute_task(&mut store, &gateway, &policy(), 50), Ok(ExecutionOutcome::TaskFailed));
    let before = row_of(&store, 1, "a@x").unwrap();
    assert_eq!(store.publish(issue(1), &vec![confirmed("a@x")]), Ok(1));
    assert_eq!(row_of(&store, 1, "a@x").unwrap(), before);
    assert_eq!(before.attempts, 1);
}

#[test]
fn duplicate_addresses_in_one_publication_get_one_row() {
    let mut store = DeliveryStore::new();
    let subscribers = vec![confirmed("a@x"), confirmed("a@x"), confirmed("b@x")];
    assert_eq!(store.publish(issue(1), &subscribers), Ok(1));
    assert_eq!(store.pending(), 2);
}

#[test]
fn publish_rejects_a_different_issue_under_the_same_identity() {
    let mut store = store_with(1, &["a@x"]);
    let mut other = issue(1);
    other.title = String::from("Another title");
    assert_eq!(store.publish(other, &vec![confirmed("b@x")]), Err(PublishError::IssueConflict));
    assert_eq!(store.pending(), 1);
    assert_eq!(store.issue(1), Some(&issue(1)));
    assert_eq!(row_of(&store, 1, "b@x"), None);
}

#[test]
fn publish_is_all_or_nothing_when_the_queue_is_full() {
    let mut store = DeliveryStore::with_row_limit(3);
    assert_eq!(store.publish(issue(1), &vec![confirmed("a@x"), confirmed("b@x")]), Ok(1));
    let many = vec![confirmed("c@x"), confirmed("d@x")];
    assert_eq!(store.publish(issue(2), &many), Err(PublishError::Store(StoreError::QueueFull)));
    assert_eq!(store.pending(), 2);
    assert_eq!(store.issue(2), None);
    assert_eq!(row_of(&store, 2, "c@x"), None);
    // One more row still fits.
    assert_eq!(store.publish(issue(2), &vec![confirmed("c@x")]), Ok(2));
    assert_eq!(store.pending(), 3);
    assert_eq!(store.row_limit(), 3);
}

#[test]
fn confirmed_addresses_keeps_order_and_drops_pending() {
    let subscribers = vec![pending("p@x"), confirmed("b@x"), confirmed("a@x"), pending("q@x")];
    assert_eq!(confirmed_addresses(&subscribers), emails(&["b@x", "a@x"]));
    assert_eq!(confirmed_addresses(&Vec::new()), Vec::<String>::new());
}

#[test]
fn enqueue_many_needs_a_published_issue() {
    let mut store = DeliveryStore::new();
    assert_eq!(store.enqueue_many(5, &emails(&["a@x"])), Err(StoreError::UnknownIssue));
    assert_eq!(store.pending(), 0);
}

#[test]
fn enqueue_many_ignores_pairings_that_have_a_row() {
    let mut store = store_with(1, &["a@x"]);
    assert_eq!(store.enqueue_many(1, &emails(&["a@x", "b@x", "b@x"])), Ok(()));
    assert_eq!(store.pending(), 2);
    assert_eq!(store.enqueue_many(1, &emails(&["a@x", "b@x", "b@x"])), Ok(()));
    assert_eq!(store.pending(), 2);
    assert_eq!(store.enqueue_many(1, &Vec::new()), Ok(()));
    assert_eq!(store.pending(), 2);
}

#[test]
fn enqueue_many_rolls_back_when_the_limit_is_hit_midway() {
    let mut store = DeliveryStore::with_row_limit(2);
    assert_eq!(store.publish(issue(1), &vec![confirmed("a@x")]), Ok(1));
    assert_eq!(store.enqueue_many(1, &emails(&["b@x", "c@x"])), Err(StoreError::QueueFull));
    assert_eq!(store.pending(), 1);
    assert_eq!(row_of(&store, 1, "b@x"), None);
    // Addresses that are already queued take no room.
    assert_eq!(store.enqueue_many(1, &emails(&["a@x", "b@x", "a@x"])), Ok(()));
    assert_eq!(store.pending(), 2);
}

#[test]
fn the_same_address_may_be_owed_several_issues() {
    let mut store = DeliveryStore::new();
    assert_eq!(store.publish(issue(1), &vec![confirmed("a@x")]), Ok(1));
    assert_eq!(store.publish(issue(2), &vec![confirmed("a@x")]), Ok(2));
    assert_eq!(store.pending(), 2);
    assert!(row_of(&store, 1, "a@x").is_some());
    assert!(row_of(&store, 2, "a@x").is_some());
}

#[test]
fn empty_queue_has_no_side_effects() {
    let mut store = DeliveryStore::new();
    let calls = RefCell::new(0u32);
    let gateway = |_m: OutboundEmail| {
        *calls.borrow_mut() += 1;
        Ok(())
    };
    assert_eq!(try_execute_task(&mut store, &gateway, &policy(), 0), Ok(ExecutionOutcome::EmptyQueue));
    assert_eq!(store.pending(), 0);
    assert!(store.failures().is_empty());
    assert_eq!(*calls.borrow(), 0);

    // Rows that are not due or are held by someone else are no work either.
    let mut store = store_with(1, &["a@x", "b@x"]);
    let first = store.claim_one(0).unwrap();
    assert_eq!(settle_delivery(&mut store, &first, transient("later"), &policy(), 5), Ok(ExecutionOutcome::TaskFailed));
    let _second = store.claim_one(0).unwrap();
    let a = row_of(&store, 1, "a@x").unwrap();
    let b = row_of(&store, 1, "b@x").unwrap();
    assert_eq!(try_execute_task(&mut store, &gateway, &policy(), 14), Ok(ExecutionOutcome::EmptyQueue));
    assert_eq!(row_of(&store, 1, "a@x").unwrap(), a);
    assert_eq!(row_of(&store, 1, "b@x").unwrap(), b);
    assert_eq!(store.failures().len(), 1);
    assert_eq!(*calls.borrow(), 0);
}

#[test]
fn the_gateway_gets_the_issue_rendered_for_the_subscriber() {
    let mut store = store_with(4, &["a@x"]);
    let seen = RefCell::new(Vec::new());
    let gateway = |m: OutboundEmail| {
        seen.borrow_mut().push(m);
        Ok(())
    };
    assert_eq!(try_execute_task(&mut store, &gateway, &policy(), 0), Ok(ExecutionOutcome::TaskCompleted));
    assert_eq!(
        seen.into_inner(),
        vec![OutboundEmail {
            recipient: String::from("a@x"),
            subject: String::from("Issue 4"),
            html_body: String::from("<p>Hello</p>"),
            text_body: String::from("Hello"),
        }]
    );
}

#[test]
fn deliveries_are_attempted_in_queue_order() {
    let mut store = store_with(1, &["a@x", "b@x", "c@x"]);
    let seen = RefCell::new(Vec::new());
    let gateway = |m: OutboundEmail| {
        seen.borrow_mut().push(m.recipient);
        Ok(())
    };
    assert_eq!(
        dispatch_all_pending_emails(&mut store, &gateway, &policy(), 0),
        Ok(DrainSummary { completed: 3, failed: 0 })
    );
    assert_eq!(seen.into_inner(), emails(&["a@x", "b@x", "c@x"]));
}

#[test]
fn transient_failures_are_retried_until_the_attempts_run_out() {
    let mut store = store_with(1, &["a@x"]);
    let gateway = |_m: OutboundEmail| transient("503");
    let p = policy();
    assert_eq!(try_execute_task(&mut store, &gateway, &p, 1000), Ok(ExecutionOutcome::TaskFailed));
    assert_eq!(row_of(&store, 1, "a@x").unwrap().next_eligible_at, 1010);
    assert_eq!(try_execute_task(&mut store, &gateway, &p, 1010), Ok(ExecutionOutcome::TaskFailed));
    let row = row_of(&store, 1, "a@x").unwrap();
    assert_eq!(row.attempts, 2);
    assert_eq!(row.next_eligible_at, 1030);
    // The third failure uses up the last attempt.
    assert_eq!(try_execute_task(&mut store, &gateway, &p, 1030), Ok(ExecutionOutcome::TaskCompleted));
    assert_eq!(store.pending(), 0);
    let log = store.failures();
    assert_eq!(log.len(), 3);
    assert_eq!(log[0].disposition, FailureDisposition::Retry);
    assert_eq!(log[1].disposition, FailureDisposition::Retry);
    assert_eq!(
        log[2],
        FailureRecord {
            issue_id: 1,
            subscriber_email: String::from("a@x"),
            error: String::from("503"),
            disposition: FailureDisposition::DeadLetter,
        }
    );
}

#[test]
fn a_policy_without_retries_dead_letters_the_first_transient_failure() {
    for max_attempts in [0u32, 1] {
        let mut store = store_with(1, &["a@x"]);
        let p = RetryPolicy { max_attempts, base_delay: 10, max_delay: 600 };
        let gateway = |_m: OutboundEmail| transient("503");
        assert_eq!(try_execute_task(&mut store, &gateway, &p, 0), Ok(ExecutionOutcome::TaskCompleted));
        assert_eq!(store.pending(), 0);
        assert_eq!(store.failures().len(), 1);
        assert_eq!(store.failures()[0].disposition, FailureDisposition::DeadLetter);
    }
}

#[test]
fn a_retry_beyond_the_end_of_the_clock_is_an_error_and_frees_the_row() {
    let mut store = store_with(1, &["a@x"]);
    let gateway = |_m: OutboundEmail| transient("503");
    let before = row_of(&store, 1, "a@x").unwrap();
    let now = u64::MAX - 9;
    assert_eq!(try_execute_task(&mut store, &gateway, &policy(), now), Err(ExecutorError::RetryTimeOverflow));
    assert_eq!(row_of(&store, 1, "a@x").unwrap(), before);
    assert!(store.failures().is_empty());
    assert_eq!(
        dispatch_all_pending_emails(&mut store, &gateway, &policy(), now),
        Err(ExecutorError::RetryTimeOverflow)
    );
    // One tick earlier the retry time still fits.
    assert_eq!(try_execute_task(&mut store, &gateway, &policy(), now - 1), Ok(ExecutionOutcome::TaskFailed));
    assert_eq!(row_of(&store, 1, "a@x").unwrap().next_eligible_at, u64::MAX);
}

#[test]
fn claims_of_concurrent_executors_are_disjoint() {
    let mut store = store_with(1, &["a@x", "b@x"]);
    let first = store.claim_one(0).unwrap();
    let second = store.claim_one(0).unwrap();
    assert_eq!(first, ClaimedItem { issue_id: 1, subscriber_email: String::from("a@x"), attempts: 0 });
    assert_eq!(second, ClaimedItem { issue_id: 1, subscriber_email: String::from("b@x"), attempts: 0 });
    assert_eq!(store.claim_one(0), None);
    assert!(row_of(&store, 1, "a@x").unwrap().claimed);
    assert!(row_of(&store, 1, "b@x").unwrap().claimed);
    // The executors finish in the other order.
    assert_eq!(settle_delivery(&mut store, &second, Ok(()), &policy(), 1), Ok(ExecutionOutcome::TaskCompleted));
    assert_eq!(settle_delivery(&mut store, &first, Ok(()), &policy(), 2), Ok(ExecutionOutcome::TaskCompleted));
    assert_eq!(store.pending(), 0);
    // Neither row can be resolved a second time.
    assert_eq!(
        settle_delivery(&mut store, &first, Ok(()), &policy(), 3),
        Err(ExecutorError::Store(StoreError::ClaimNotHeld))
    );
    assert_eq!(store.resolve_success(&second), Err(StoreError::ClaimNotHeld));
}

#[test]
fn interleaved_executors_resolve_every_row_exactly_once() {
    let mut store = store_with(1, &["a@x", "b@x", "c@x", "d@x", "e@x"]);
    let p = policy();
    let mut resolved = 0;
    let mut holding: Vec<Option<ClaimedItem>> = vec![None, None, None];
    let mut turn = 0usize;
    while store.pending() > 0 {
        let worker = turn % 3;
        turn += 1;
        match holding[worker].take() {
            None => holding[worker] = store.claim_one(10),
            Some(item) => {
                assert_eq!(settle_delivery(&mut store, &item, Ok(()), &p, 10), Ok(ExecutionOutcome::TaskCompleted));
                resolved += 1;
            }
        }
        assert!(turn < 100);
    }
    assert_eq!(resolved, 5);
    assert!(holding.iter().all(|h| h.is_none()));
}

#[test]
fn resolving_without_a_claim_is_refused() {
    let mut store = store_with(1, &["a@x"]);
    let forged = ClaimedItem { issue_id: 1, subscriber_email: String::from("a@x"), attempts: 0 };
    let before = row_of(&store, 1, "a@x").unwrap();
    assert_eq!(store.resolve_success(&forged), Err(StoreError::ClaimNotHeld));
    assert_eq!(store.resolve_retry(&forged, 9, String::from("e")), Err(StoreError::ClaimNotHeld));
    assert_eq!(store.resolve_dead_letter(&forged, String::from("e")), Err(StoreError::ClaimNotHeld));
    assert_eq!(store.release(&forged), Err(StoreError::ClaimNotHeld));
    assert_eq!(row_of(&store, 1, "a@x").unwrap(), before);
    assert!(store.failures().is_empty());
    let missing = ClaimedItem { issue_id: 2, subscriber_email: String::from("a@x"), attempts: 0 };
    assert_eq!(store.resolve_success(&missing), Err(StoreError::ClaimNotHeld));
    assert_eq!(store.pending(), 1);
}

#[test]
fn store_resolutions_do_what_they_say() {
    let mut store = store_with(1, &["a@x", "b@x", "c@x"]);
    let a = store.claim_one(0).unwrap();
    let b = store.claim_one(0).unwrap();
    let c = store.claim_one(0).unwrap();
    assert_eq!(store.resolve_retry(&b, 77, String::from("slow")), Ok(()));
    assert_eq!(
        row_of(&store, 1, "b@x").unwrap(),
        QueueRow {
            issue_id: 1,
            subscriber_email: String::from("b@x"),
            attempts: 1,
            next_eligible_at: 77,
            last_error: Some(String::from("slow")),
            claimed: false,
        }
    );
    assert_eq!(store.resolve_dead_letter(&a, String::from("gone")), Ok(()));
    assert_eq!(row_of(&store, 1, "a@x"), None);
    assert_eq!(store.resolve_success(&c), Ok(()));
    assert_eq!(store.pending(), 1);
    assert_eq!(
        store.failures(),
        &vec![
            FailureRecord {
                issue_id: 1,
                subscriber_email: String::from("b@x"),
                error: String::from("slow"),
                disposition: FailureDisposition::Retry,
            },
            FailureRecord {
                issue_id: 1,
                subscriber_email: String::from("a@x"),
                error: String::from("gone"),
                disposition: FailureDisposition::DeadLetter,
            },
        ]
    );
}

#[test]
fn a_released_row_can_be_claimed_again() {
    let mut store = store_with(1, &["a@x"]);
    let item = store.claim_one(0).unwrap();
    assert_eq!(store.claim_one(0), None);
    let held = row_of(&store, 1, "a@x").unwrap();
    assert_eq!(store.release(&item), Ok(()));
    assert_eq!(row_of(&store, 1, "a@x").unwrap(), QueueRow { claimed: false, ..held });
    assert_eq!(store.claim_one(0), Some(item));
}

#[test]
fn a_claim_passes_over_rows_that_are_not_due() {
    let mut store = store_with(1, &["a@x", "b@x"]);
    let a = store.claim_one(0).unwrap();
    assert_eq!(store.resolve_retry(&a, 50, String::from("e")), Ok(()));
    let next = store.claim_one(49).unwrap();
    assert_eq!(next.subscriber_email, "b@x");
    assert_eq!(store.release(&next), Ok(()));
    let first = store.claim_one(50).unwrap();
    assert_eq!(first.subscriber_email, "a@x");
    assert_eq!(first.attempts, 1);
}

#[test]
fn a_drain_attempts_every_due_delivery_once() {
    let mut store = store_with(1, &["a@x", "bad@x", "slow@x", "d@x"]);
    let calls = RefCell::new(Vec::new());
    let gateway = |m: OutboundEmail| {
        calls.borrow_mut().push(m.recipient.clone());
        if m.recipient == "bad@x" {
            permanent("no such user")
        } else if m.recipient == "slow@x" {
            transient("timeout")
        } else {
            Ok(())
        }
    };
    assert_eq!(
        dispatch_all_pending_emails(&mut store, &gateway, &policy(), 5),
        Ok(DrainSummary { completed: 3, failed: 1 })
    );
    assert_eq!(calls.borrow().clone(), emails(&["a@x", "bad@x", "slow@x", "d@x"]));
    assert_eq!(store.pending(), 1);
    assert_eq!(row_of(&store, 1, "slow@x").unwrap().next_eligible_at, 15);
    assert_eq!(store.failures().len(), 2);
    // Nothing is due any more at the same time.
    assert_eq!(
        dispatch_all_pending_emails(&mut store, &gateway, &policy(), 5),
        Ok(DrainSummary { completed: 0, failed: 0 })
    );
    assert_eq!(calls.borrow().len(), 4);
}

#[test]
fn settle_delivery_handles_each_gateway_answer() {
    let p = policy();
    let mut store = store_with(1, &["a@x", "b@x", "c@x", "d@x"]);
    let a = store.claim_one(0).unwrap();
    let b = store.claim_one(0).unwrap();
    let c = store.claim_one(0).unwrap();
    let d = store.claim_one(0).unwrap();
    assert_eq!(settle_delivery(&mut store, &a, Ok(()), &p, 10), Ok(ExecutionOutcome::TaskCompleted));
    assert_eq!(settle_delivery(&mut store, &b, permanent("p"), &p, 10), Ok(ExecutionOutcome::TaskCompleted));
    assert_eq!(settle_delivery(&mut store, &c, transient("t"), &p, 10), Ok(ExecutionOutcome::TaskFailed));
    let last = ClaimedItem { attempts: 2, ..d };
    assert_eq!(settle_delivery(&mut store, &last, transient("t"), &p, 10), Ok(ExecutionOutcome::TaskCompleted));
    assert_eq!(store.pending(), 1);
    assert_eq!(row_of(&store, 1, "c@x").unwrap().next_eligible_at, 20);
    assert_eq!(store.failures().len(), 3);
}

#[test]
fn a_new_store_is_empty() {
    let store = DeliveryStore::new();
    assert_eq!(store.pending(), 0);
    assert_eq!(store.row_limit(), usize::MAX);
    assert!(store.failures().is_empty());
    assert_eq!(store.issue(1), None);
    assert_eq!(store.row(1, &String::from("a@x")), None);
    let bounded = DeliveryStore::with_row_limit(0);
    assert_eq!(bounded.row_limit(), 0);
    let mut bounded = bounded;
    assert_eq!(bounded.publish(issue(1), &vec![pending("a@x")]), Ok(1));
    assert_eq!(bounded.publish(issue(2), &vec![confirmed("a@x")]), Err(PublishError::Store(StoreError::QueueFull)));
}
