//! The worker loop as a state machine: what the loop does next, given what
//! just happened. The caller owns the clock, the sleeping and the gateway; the
//! decisions are made here.

use vstd::prelude::*;
use crate::issue_delivery_worker::{ExecutionOutcome, ExecutorError};

verus! {

/// The two states of the worker loop.
#[derive(Copy, Clone, Debug, PartialEq, Eq, Structural)]
pub enum WorkerState {
    /// The last pass found work: the next pass follows at once.
    Draining,
    /// The last pass found no work, or could not finish: the worker waits
    /// before it looks again.
    Idle,
}

/// What the loop has just seen.
#[derive(Copy, Clone, Debug, PartialEq, Eq)]
pub enum WorkerEvent {
    /// The loop has been started.
    Started,
    /// A pass of the executor has returned.
    PassFinished(Result<ExecutionOutcome, ExecutorError>),
    /// A sleep has run its time or was interrupted.
    SleepFinished,
}

/// What the loop does next.
#[derive(Copy, Clone, Debug, PartialEq, Eq, Structural)]
pub enum WorkerAction {
    /// Run a pass of the executor now.
    Execute,
    /// Sleep for this many ticks, or until shutdown is requested.
    Sleep(u64),
    /// Leave the loop.
    Stop,
}

/// The waits of the worker loop.
#[derive(Copy, Clone, Debug, PartialEq, Eq, Structural)]
pub struct WorkerConfig {
    /// The wait after a pass that found the queue without work.
    pub idle_interval: u64,
    /// The wait after a pass that ended in an error.
    pub error_delay: u64,
}

/// The state the loop is in once it has seen `event`.
pub open spec fn next_state(state: WorkerState, event: WorkerEvent) -> WorkerState {
    match event {
        WorkerEvent::Started => WorkerState::Draining,
        WorkerEvent::PassFinished(Ok(ExecutionOutcome::TaskCompleted)) => WorkerState::Draining,
        WorkerEvent::PassFinished(Ok(ExecutionOutcome::TaskFailed)) => WorkerState::Draining,
        WorkerEvent::PassFinished(Ok(ExecutionOutcome::EmptyQueue)) => WorkerState::Idle,
        WorkerEvent::PassFinished(Err(_)) => WorkerState::Idle,
        WorkerEvent::SleepFinished => state,
    }
}

/// What the loop does once it has seen `event`. A requested shutdown stops it
/// whatever the event: every event lies between two passes, so no delivery is
/// claimed at that moment.
pub open spec fn next_action(event: WorkerEvent, shutdown_requested: bool, config: WorkerConfig) -> WorkerAction {
    if shutdown_requested {
        WorkerAction::Stop
    } else {
        match event {
            WorkerEvent::Started => WorkerAction::Execute,
            WorkerEvent::PassFinished(Ok(ExecutionOutcome::TaskCompleted)) => WorkerAction::Execute,
            WorkerEvent::PassFinished(Ok(ExecutionOutcome::TaskFailed)) => WorkerAction::Execute,
            WorkerEvent::PassFinished(Ok(ExecutionOutcome::EmptyQueue)) => WorkerAction::Sleep(
                config.idle_interval,
            ),
            WorkerEvent::PassFinished(Err(_)) => WorkerAction::Sleep(config.error_delay),
            WorkerEvent::SleepFinished => WorkerAction::Execute,
        }
    }
}

/// Advances the worker loop by one event.
///
/// The loop keeps draining without delay while passes find work, idles for
/// the configured interval when a pass finds none, waits out the error delay
/// when a pass fails, and looks again after every sleep. It stops exactly when
/// shutdown has been requested.
pub fn worker_step(
    state: WorkerState,
    event: WorkerEvent,
    shutdown_requested: bool,
    config: &WorkerConfig,
) -> (next: (WorkerState, WorkerAction))
    ensures
        next.0 == next_state(state, event),
        next.1 == next_action(event, shutdown_requested, *config),
        next.1 == WorkerAction::Stop <==> shutdown_requested,
{
    let (entered, action) = match event {
        WorkerEvent::Started => (WorkerState::Draining, WorkerAction::Execute),
        WorkerEvent::PassFinished(Ok(ExecutionOutcome::EmptyQueue)) => (
            WorkerState::Idle,
            WorkerAction::Sleep(config.idle_interval),
        ),
        WorkerEvent::PassFinished(Ok(_)) => (WorkerState::Draining, WorkerAction::Execute),
        WorkerEvent::PassFinished(Err(_)) => (
            WorkerState::Idle,
            WorkerAction::Sleep(config.error_delay),
        ),
        WorkerEvent::SleepFinished => (state, WorkerAction::Execute),
    };
    if shutdown_requested {
        (entered, WorkerAction::Stop)
    } else {
        (entered, action)
    }
}

} // verus!
