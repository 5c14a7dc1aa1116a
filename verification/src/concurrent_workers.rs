//! Several executors working on one store at the same time.
//!
//! An executor claims a delivery, talks to the gateway, and settles the
//! delivery. Between any two of these steps other executors may take steps of
//! their own. This module describes every such interleaving and proves that,
//! whatever the order, no delivery is held by two executors and each is
//! resolved at most once.

use vstd::prelude::*;
use crate::domain::{GatewayError, IssueId, RowView, Timestamp};
use crate::issue_delivery_worker::{
    ExecutionOutcome, ExecutorError, has_work, settle_result, settled,
};
use crate::retry_policy::RetryPolicy;
use crate::seq_search::lemma_first_index;
use crate::store_model::{
    StoreState, eligible_at, has_row, holds_claim, lemma_claim_keeps_index, lemma_remove_keeps_wf,
    lemma_remove_row, lemma_row_index, lemma_row_index_unique, lemma_update_keeps_wf,
    lemma_update_row, next_claim, row_index,
};

verus! {

/// One step of one executor.
pub ghost enum WorkerStep {
    /// The executor asks the store for a delivery that is due at `now`.
    Claim { worker: int, now: Timestamp },
    /// The executor settles the delivery it holds, the gateway having
    /// answered `sent`.
    Settle { worker: int, sent: Result<(), GatewayError>, policy: RetryPolicy, now: Timestamp },
    /// The executor gives up the delivery it holds without an attempt, as
    /// when it is shut down or its transaction aborts.
    Abandon { worker: int },
}

/// A store together with the executors working on it.
pub ghost struct Fleet {
    pub store: StoreState,
    /// The delivery each busy executor holds, as the row was when claimed.
    pub holding: Map<int, RowView>,
    /// The pairings resolved for good so far, delivered or dead-lettered, in
    /// the order they were resolved.
    pub resolved: Seq<(IssueId, Seq<char>)>,
}

/// A fleet of idle executors on the given store.
pub open spec fn idle_fleet(store: StoreState) -> Fleet {
    Fleet { store, holding: Map::empty(), resolved: Seq::empty() }
}

/// The fleet after one step. A step that does not fit the executor's
/// situation (a claim while it holds a delivery, a settlement while it holds
/// none) does nothing.
pub open spec fn fleet_step(fleet: Fleet, step: WorkerStep) -> Fleet {
    match step {
        WorkerStep::Claim { worker, now } => {
            if fleet.holding.contains_key(worker) || !has_work(fleet.store, now) {
                fleet
            } else {
                let i = next_claim(fleet.store.rows, now);
                Fleet {
                    store: fleet.store.claimed(i),
                    holding: fleet.holding.insert(worker, fleet.store.rows[i]),
                    ..fleet
                }
            }
        },
        WorkerStep::Settle { worker, sent, policy, now } => {
            if !fleet.holding.contains_key(worker) {
                fleet
            } else {
                let row = fleet.holding[worker];
                let r = settle_result(
                    fleet.store,
                    row.issue_id,
                    row.email,
                    row.attempts,
                    sent,
                    policy,
                    now,
                );
                Fleet {
                    store: settled(
                        fleet.store,
                        row.issue_id,
                        row.email,
                        row.attempts,
                        sent,
                        policy,
                        now,
                    ),
                    holding: fleet.holding.remove(worker),
                    resolved: if r == Ok::<ExecutionOutcome, ExecutorError>(
                        ExecutionOutcome::TaskCompleted,
                    ) {
                        fleet.resolved.push((row.issue_id, row.email))
                    } else {
                        fleet.resolved
                    },
                }
            }
        },
        WorkerStep::Abandon { worker } => {
            if !fleet.holding.contains_key(worker) {
                fleet
            } else {
                let row = fleet.holding[worker];
                Fleet {
                    store: if holds_claim(fleet.store.rows, row.issue_id, row.email) {
                        fleet.store.released(row.issue_id, row.email)
                    } else {
                        fleet.store
                    },
                    holding: fleet.holding.remove(worker),
                    ..fleet
                }
            }
        },
    }
}

/// The fleet after the given steps, taken in order.
pub open spec fn fleet_run(fleet: Fleet, steps: Seq<WorkerStep>) -> Fleet
    decreases steps.len(),
{
    if steps.len() == 0 {
        fleet
    } else {
        fleet_step(fleet_run(fleet, steps.drop_last()), steps.last())
    }
}

/// What holds of a fleet that started idle on a store with `initial` rows:
/// the store is well formed; every busy executor holds a claimed row, and no
/// two hold the same; no pairing was resolved twice; a resolved pairing has no
/// row; every resolved pairing and every row stems from the initial queue; and
/// rows and resolutions together are as many as the rows at the start.
pub open spec fn fleet_consistent(fleet: Fleet, initial: Seq<RowView>) -> bool {
    &&& fleet.store.wf()
    &&& forall|w: int| #[trigger]
        fleet.holding.contains_key(w) ==> holds_claim(
            fleet.store.rows,
            fleet.holding[w].issue_id,
            fleet.holding[w].email,
        )
    &&& forall|v: int, w: int|
        #![trigger fleet.holding.contains_key(v), fleet.holding.contains_key(w)]
        fleet.holding.contains_key(v) && fleet.holding.contains_key(w) && v != w ==> !(
        fleet.holding[v].issue_id == fleet.holding[w].issue_id && fleet.holding[v].email
            == fleet.holding[w].email)
    &&& fleet.resolved.no_duplicates()
    &&& forall|k: int|
        0 <= k < fleet.resolved.len() ==> !has_row(
            fleet.store.rows,
            (#[trigger] fleet.resolved[k]).0,
            fleet.resolved[k].1,
        ) && has_row(initial, fleet.resolved[k].0, fleet.resolved[k].1)
    &&& forall|i: int|
        0 <= i < fleet.store.rows.len() ==> has_row(
            initial,
            (#[trigger] fleet.store.rows[i]).issue_id,
            fleet.store.rows[i].email,
        )
    &&& fleet.resolved.len() + fleet.store.rows.len() == initial.len()
}

/// Two executors that claim one after the other, with no settlement in
/// between, get different rows.
pub proof fn lemma_claims_are_exclusive(state: StoreState, first: Timestamp, second: Timestamp)
    requires
        state.wf(),
        has_work(state, first),
        has_work(state.claimed(next_claim(state.rows, first)), second),
    ensures
        next_claim(state.claimed(next_claim(state.rows, first)).rows, second) != next_claim(
            state.rows,
            first,
        ),
{
    let i = next_claim(state.rows, first);
    lemma_first_index(state.rows, eligible_at(first));
    let held = state.claimed(i);
    lemma_first_index(held.rows, eligible_at(second));
}

/// Removing the row of one pairing keeps the fleet's view of all others.
proof fn lemma_step_removal(fleet: Fleet, initial: Seq<RowView>, worker: int, after: Fleet)
    requires
        fleet_consistent(fleet, initial),
        fleet.holding.contains_key(worker),
        after.store.issues == fleet.store.issues,
        after.store.row_limit == fleet.store.row_limit,
        after.store.rows == fleet.store.rows.remove(
            row_index(
                fleet.store.rows,
                fleet.holding[worker].issue_id,
                fleet.holding[worker].email,
            ),
        ),
        after.holding == fleet.holding.remove(worker),
        after.resolved == fleet.resolved.push(
            (fleet.holding[worker].issue_id, fleet.holding[worker].email),
        ),
    ensures
        fleet_consistent(after, initial),
{
    let rows = fleet.store.rows;
    let key = fleet.holding[worker];
    let j = row_index(rows, key.issue_id, key.email);
    lemma_row_index(rows, key.issue_id, key.email);
    assert(holds_claim(rows, key.issue_id, key.email));
    lemma_remove_keeps_wf(fleet.store, j);
    lemma_remove_row(rows, j);
    let pair = (key.issue_id, key.email);
    assert forall|w: int| #[trigger] after.holding.contains_key(w) implies holds_claim(
        after.store.rows,
        after.holding[w].issue_id,
        after.holding[w].email,
    ) by {
        assert(fleet.holding.contains_key(w) && fleet.holding.contains_key(worker));
        let other = fleet.holding[w];
        assert(holds_claim(rows, other.issue_id, other.email));
        assert(has_row(after.store.rows, other.issue_id, other.email));
    }
    assert forall|v: int, w: int|
        #![trigger after.holding.contains_key(v), after.holding.contains_key(w)]
        after.holding.contains_key(v) && after.holding.contains_key(w) && v != w implies !(
    after.holding[v].issue_id == after.holding[w].issue_id && after.holding[v].email
        == after.holding[w].email) by {
        assert(fleet.holding.contains_key(v) && fleet.holding.contains_key(w));
    }
    assert forall|k: int| 0 <= k < after.resolved.len() implies !has_row(
        after.store.rows,
        (#[trigger] after.resolved[k]).0,
        after.resolved[k].1,
    ) && has_row(initial, after.resolved[k].0, after.resolved[k].1) by {
        if k < fleet.resolved.len() {
            let r = fleet.resolved[k];
            assert(after.resolved[k] == r);
            assert(!has_row(rows, r.0, r.1));
        } else {
            assert(after.resolved[k] == pair);
            assert(has_row(initial, rows[j].issue_id, rows[j].email));
        }
    }
    assert(after.resolved.no_duplicates()) by {
        assert forall|a: int, b: int|
            0 <= a < after.resolved.len() && 0 <= b < after.resolved.len() && a
                != b implies after.resolved[a] != after.resolved[b] by {
            if a < fleet.resolved.len() && b < fleet.resolved.len() {
                assert(fleet.resolved[a] != fleet.resolved[b]);
            } else if a < fleet.resolved.len() {
                assert(!has_row(rows, fleet.resolved[a].0, fleet.resolved[a].1));
            } else {
                assert(!has_row(rows, fleet.resolved[b].0, fleet.resolved[b].1));
            }
        }
    }
    assert forall|i: int| 0 <= i < after.store.rows.len() implies has_row(
        initial,
        (#[trigger] after.store.rows[i]).issue_id,
        after.store.rows[i].email,
    ) by {
        let i0 = if i < j {
            i
        } else {
            i + 1
        };
        assert(after.store.rows[i] == rows[i0]);
        assert(has_row(initial, rows[i0].issue_id, rows[i0].email));
    }
}

/// Changing the held row of one pairing, without touching the pairing, keeps
/// the fleet's view of all others.
proof fn lemma_step_update(
    fleet: Fleet,
    initial: Seq<RowView>,
    worker: int,
    row: RowView,
    after: Fleet,
)
    requires
        fleet_consistent(fleet, initial),
        fleet.holding.contains_key(worker),
        row.issue_id == fleet.holding[worker].issue_id,
        row.email == fleet.holding[worker].email,
        after.store.issues == fleet.store.issues,
        after.store.row_limit == fleet.store.row_limit,
        after.store.rows == fleet.store.rows.update(
            row_index(
                fleet.store.rows,
                fleet.holding[worker].issue_id,
                fleet.holding[worker].email,
            ),
            row,
        ),
        after.holding == fleet.holding.remove(worker),
        after.resolved == fleet.resolved,
    ensures
        fleet_consistent(after, initial),
{
    let rows = fleet.store.rows;
    let key = fleet.holding[worker];
    let j = row_index(rows, key.issue_id, key.email);
    lemma_row_index(rows, key.issue_id, key.email);
    assert(holds_claim(rows, key.issue_id, key.email));
    lemma_update_keeps_wf(fleet.store, j, row);
    lemma_update_row(rows, j, row);
    assert forall|w: int| #[trigger] after.holding.contains_key(w) implies holds_claim(
        after.store.rows,
        after.holding[w].issue_id,
        after.holding[w].email,
    ) by {
        assert(fleet.holding.contains_key(w) && fleet.holding.contains_key(worker));
        let other = fleet.holding[w];
        assert(holds_claim(rows, other.issue_id, other.email));
        lemma_row_index(rows, other.issue_id, other.email);
        assert(row_index(after.store.rows, other.issue_id, other.email) == row_index(
            rows,
            other.issue_id,
            other.email,
        ));
    }
    assert forall|v: int, w: int|
        #![trigger after.holding.contains_key(v), after.holding.contains_key(w)]
        after.holding.contains_key(v) && after.holding.contains_key(w) && v != w implies !(
    after.holding[v].issue_id == after.holding[w].issue_id && after.holding[v].email
        == after.holding[w].email) by {
        assert(fleet.holding.contains_key(v) && fleet.holding.contains_key(w));
    }
    assert forall|k: int| 0 <= k < after.resolved.len() implies !has_row(
        after.store.rows,
        (#[trigger] after.resolved[k]).0,
        after.resolved[k].1,
    ) && has_row(initial, after.resolved[k].0, after.resolved[k].1) by {
        let r = fleet.resolved[k];
        assert(!has_row(rows, r.0, r.1));
        assert(row_index(after.store.rows, r.0, r.1) == row_index(rows, r.0, r.1));
    }
    assert forall|i: int| 0 <= i < after.store.rows.len() implies has_row(
        initial,
        (#[trigger] after.store.rows[i]).issue_id,
        after.store.rows[i].email,
    ) by {
        assert(has_row(initial, rows[i].issue_id, rows[i].email));
    }
}

/// A claim keeps the fleet consistent.
proof fn lemma_step_claim(fleet: Fleet, initial: Seq<RowView>, worker: int, now: Timestamp)
    requires
        fleet_consistent(fleet, initial),
    ensures
        fleet_consistent(fleet_step(fleet, WorkerStep::Claim { worker, now }), initial),
{
    let after = fleet_step(fleet, WorkerStep::Claim { worker, now });
    if !fleet.holding.contains_key(worker) && has_work(fleet.store, now) {
        let rows = fleet.store.rows;
        let i = next_claim(rows, now);
        lemma_first_index(rows, eligible_at(now));
        lemma_claim_keeps_index(fleet.store, i);
        let taken = rows[i];
        assert(!taken.claimed);
        assert forall|w: int| #[trigger] after.holding.contains_key(w) implies holds_claim(
            after.store.rows,
            after.holding[w].issue_id,
            after.holding[w].email,
        ) by {
            if w != worker {
                assert(fleet.holding.contains_key(w));
                let other = fleet.holding[w];
                assert(after.holding[w] == other);
                assert(holds_claim(rows, other.issue_id, other.email));
                lemma_row_index(rows, other.issue_id, other.email);
                let at = row_index(rows, other.issue_id, other.email);
                assert(row_index(after.store.rows, other.issue_id, other.email) == at);
                assert(after.store.rows[at].claimed);
            } else {
                assert(after.holding[w] == taken);
            }
        }
        assert forall|v: int, w: int|
            #![trigger after.holding.contains_key(v), after.holding.contains_key(w)]
            after.holding.contains_key(v) && after.holding.contains_key(w) && v != w implies !(
        after.holding[v].issue_id == after.holding[w].issue_id && after.holding[v].email
            == after.holding[w].email) by {
            if v != worker && w != worker {
                assert(fleet.holding.contains_key(v) && fleet.holding.contains_key(w));
            } else {
                let u = if v == worker {
                    w
                } else {
                    v
                };
                assert(fleet.holding.contains_key(u));
                let other = fleet.holding[u];
                assert(holds_claim(rows, other.issue_id, other.email));
                if other.issue_id == taken.issue_id && other.email == taken.email {
                    assert(row_index(rows, other.issue_id, other.email) == i);
                }
            }
        }
        assert forall|k: int| 0 <= k < after.resolved.len() implies !has_row(
            after.store.rows,
            (#[trigger] after.resolved[k]).0,
            after.resolved[k].1,
        ) && has_row(initial, after.resolved[k].0, after.resolved[k].1) by {
            let r = fleet.resolved[k];
            assert(!has_row(rows, r.0, r.1));
            assert(row_index(after.store.rows, r.0, r.1) == row_index(rows, r.0, r.1));
        }
        assert forall|j: int| 0 <= j < after.store.rows.len() implies has_row(
            initial,
            (#[trigger] after.store.rows[j]).issue_id,
            after.store.rows[j].email,
        ) by {
            assert(has_row(initial, rows[j].issue_id, rows[j].email));
        }
    }
}

/// Any step keeps the fleet consistent.
pub proof fn lemma_step_keeps_fleet_consistent(
    fleet: Fleet,
    initial: Seq<RowView>,
    step: WorkerStep,
)
    requires
        fleet_consistent(fleet, initial),
    ensures
        fleet_consistent(fleet_step(fleet, step), initial),
{
    let after = fleet_step(fleet, step);
    match step {
        WorkerStep::Claim { worker, now } => {
            lemma_step_claim(fleet, initial, worker, now);
        },
        WorkerStep::Settle { worker, sent, policy, now } => {
            if fleet.holding.contains_key(worker) {
                let key = fleet.holding[worker];
                let j = row_index(fleet.store.rows, key.issue_id, key.email);
                assert(holds_claim(fleet.store.rows, key.issue_id, key.email));
                lemma_row_index(fleet.store.rows, key.issue_id, key.email);
                let r = settle_result(
                    fleet.store,
                    key.issue_id,
                    key.email,
                    key.attempts,
                    sent,
                    policy,
                    now,
                );
                if r == Ok::<ExecutionOutcome, ExecutorError>(ExecutionOutcome::TaskCompleted) {
                    lemma_step_removal(fleet, initial, worker, after);
                } else {
                    assert(after.store.rows =~= fleet.store.rows.update(j, after.store.rows[j]));
                    lemma_step_update(fleet, initial, worker, after.store.rows[j], after);
                }
            }
        },
        WorkerStep::Abandon { worker } => {
            if fleet.holding.contains_key(worker) {
                let key = fleet.holding[worker];
                let j = row_index(fleet.store.rows, key.issue_id, key.email);
                assert(holds_claim(fleet.store.rows, key.issue_id, key.email));
                lemma_row_index(fleet.store.rows, key.issue_id, key.email);
                assert(after.store.rows =~= fleet.store.rows.update(j, after.store.rows[j]));
                lemma_step_update(fleet, initial, worker, after.store.rows[j], after);
            }
        },
    }
}

/// However the steps of any number of executors interleave, the fleet stays
/// consistent: a delivery is never held by two executors, never resolved
/// twice, and the resolutions together with the rows still queued are exactly
/// the rows the queue started with. So once the queue of `N` rows is drained,
/// exactly `N` resolutions have happened.
pub proof fn lemma_fleet_resolves_each_row_once(store: StoreState, steps: Seq<WorkerStep>)
    requires
        store.wf(),
    ensures
        fleet_consistent(fleet_run(idle_fleet(store), steps), store.rows),
        fleet_run(idle_fleet(store), steps).store.rows.len() == 0 ==> fleet_run(
            idle_fleet(store),
            steps,
        ).resolved.len() == store.rows.len(),
    decreases steps.len(),
{
    if steps.len() == 0 {
        let fleet = idle_fleet(store);
        assert forall|i: int| 0 <= i < store.rows.len() implies has_row(
            store.rows,
            (#[trigger] store.rows[i]).issue_id,
            store.rows[i].email,
        ) by {
            lemma_row_index_unique(store.rows, i);
        }
    } else {
        lemma_fleet_resolves_each_row_once(store, steps.drop_last());
        lemma_step_keeps_fleet_consistent(
            fleet_run(idle_fleet(store), steps.drop_last()),
            store.rows,
            steps.last(),
        );
    }
}

} // verus!
