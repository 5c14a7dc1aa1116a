use mailnewsletter::issue_delivery_worker::{ExecutionOutcome, ExecutorError};
use mailnewsletter::retry_policy::RetryPolicy;
use mailnewsletter::worker_loop::{worker_step, WorkerAction, WorkerConfig, WorkerEvent, WorkerState};

#[test]
fn backoff_doubles_from_the_base_delay_up_to_the_cap() {
    let p = RetryPolicy { max_attempts: 10, base_delay: 10, max_delay: 600 };
    assert_eq!(p.delay_after(0), 10);
    assert_eq!(p.delay_after(1), 10);
    assert_eq!(p.delay_after(2), 20);
    assert_eq!(p.delay_after(3), 40);
    assert_eq!(p.delay_after(6), 320);
    assert_eq!(p.delay_after(7), 600);
    assert_eq!(p.delay_after(8), 600);
    assert_eq!(p.delay_after(u32::MAX), 600);
}

#[test]
fn backoff_is_never_shorter_than_one_tick() {
    let zero_base = RetryPolicy { max_attempts: 3, base_delay: 0, max_delay: 600 };
    assert_eq!(zero_base.delay_after(1), 1);
    assert_eq!(zero_base.delay_after(u32::MAX), 1);
    let zero_cap = RetryPolicy { max_attempts: 3, base_delay: 5, max_delay: 0 };
    assert_eq!(zero_cap.delay_after(1), 1);
    assert_eq!(zero_cap.delay_after(4), 1);
}

#[test]
fn backoff_stops_at_a_cap_below_the_base_and_does_not_overflow() {
    let low_cap = RetryPolicy { max_attempts: 3, base_delay: 100, max_delay: 30 };
    assert_eq!(low_cap.delay_after(1), 30);
    assert_eq!(low_cap.delay_after(5), 30);
    let huge = RetryPolicy { max_attempts: 3, base_delay: 3, max_delay: u64::MAX };
    assert_eq!(huge.delay_after(63), 3u64 << 62);
    assert_eq!(huge.delay_after(64), u64::MAX);
    assert_eq!(huge.delay_after(200), u64::MAX);
    let exact = RetryPolicy { max_attempts: 3, base_delay: 8, max_delay: 64 };
    assert_eq!(exact.delay_after(4), 64);
    assert_eq!(exact.delay_after(5), 64);
}

#[test]
fn attempts_run_out_at_the_configured_count() {
    let p = RetryPolicy { max_attempts: 3, base_delay: 10, max_delay: 600 };
    assert!(!p.exhausted_after(0));
    assert!(!p.exhausted_after(1));
    assert!(p.exhausted_after(2));
    assert!(p.exhausted_after(3));
    assert!(p.exhausted_after(u32::MAX));
    let never = RetryPolicy { max_attempts: u32::MAX, base_delay: 10, max_delay: 600 };
    assert!(!never.exhausted_after(u32::MAX - 2));
    assert!(never.exhausted_after(u32::MAX - 1));
    let none = RetryPolicy { max_attempts: 0, base_delay: 10, max_delay: 600 };
    assert!(none.exhausted_after(0));
}

fn config() -> WorkerConfig {
    WorkerConfig { idle_interval: 10, error_delay: 1 }
}

#[test]
fn the_worker_keeps_draining_while_passes_find_work() {
    let c = config();
    assert_eq!(
        worker_step(WorkerState::Idle, WorkerEvent::Started, false, &c),
        (WorkerState::Draining, WorkerAction::Execute)
    );
    for outcome in [ExecutionOutcome::TaskCompleted, ExecutionOutcome::TaskFailed] {
        for state in [WorkerState::Draining, WorkerState::Idle] {
            assert_eq!(
                worker_step(state, WorkerEvent::PassFinished(Ok(outcome)), false, &c),
                (WorkerState::Draining, WorkerAction::Execute)
            );
        }
    }
}

#[test]
fn the_worker_idles_on_an_empty_queue_and_looks_again_after_the_sleep() {
    let c = config();
    let (state, action) = worker_step(
        WorkerState::Draining,
        WorkerEvent::PassFinished(Ok(ExecutionOutcome::EmptyQueue)),
        false,
        &c,
    );
    assert_eq!((state, action), (WorkerState::Idle, WorkerAction::Sleep(10)));
    assert_eq!(
        worker_step(state, WorkerEvent::SleepFinished, false, &c),
        (WorkerState::Idle, WorkerAction::Execute)
    );
    assert_eq!(
        worker_step(WorkerState::Draining, WorkerEvent::SleepFinished, false, &c),
        (WorkerState::Draining, WorkerAction::Execute)
    );
}

#[test]
fn the_worker_waits_out_the_error_delay_after_a_failed_pass() {
    let c = config();
    assert_eq!(
        worker_step(
            WorkerState::Draining,
            WorkerEvent::PassFinished(Err(ExecutorError::RetryTimeOverflow)),
            false,
            &c
        ),
        (WorkerState::Idle, WorkerAction::Sleep(1))
    );
}

#[test]
fn a_requested_shutdown_stops_the_worker_at_every_event() {
    let c = config();
    let events = [
        WorkerEvent::Started,
        WorkerEvent::SleepFinished,
        WorkerEvent::PassFinished(Ok(ExecutionOutcome::TaskCompleted)),
        WorkerEvent::PassFinished(Ok(ExecutionOutcome::TaskFailed)),
        WorkerEvent::PassFinished(Ok(ExecutionOutcome::EmptyQueue)),
        WorkerEvent::PassFinished(Err(ExecutorError::RetryTimeOverflow)),
    ];
    for event in events {
        for state in [WorkerState::Draining, WorkerState::Idle] {
            assert_eq!(worker_step(state, event, true, &c).1, WorkerAction::Stop);
            assert_ne!(worker_step(state, event, false, &c).1, WorkerAction::Stop);
        }
    }
}
